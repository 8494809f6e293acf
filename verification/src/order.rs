use vstd::prelude::*;

verus! {

/// Samples listed in non-decreasing timestamp order.
pub open spec fn sorted_by_ts(s: Seq<(u64, u32)>) -> bool {
    forall|i: int, j: int| 0 <= i <= j < s.len() ==> s[i].0 <= s[j].0
}

/// How many samples of `s` carry a timestamp at or below `ts`. In a sorted
/// listing this is the slot where a fresh sample with timestamp `ts` lands:
/// behind every sample it ties with, ahead of everything strictly later.
pub open spec fn count_le(s: Seq<(u64, u32)>, ts: u64) -> int
    decreases s.len(),
{
    if s.len() == 0 {
        0
    } else {
        count_le(s.drop_last(), ts) + (if s.last().0 <= ts {
            1int
        } else {
            0int
        })
    }
}

pub proof fn lemma_count_le_bounds(s: Seq<(u64, u32)>, ts: u64)
    ensures
        0 <= count_le(s, ts) <= s.len(),
    decreases s.len(),
{
    if s.len() != 0 {
        lemma_count_le_bounds(s.drop_last(), ts);
    }
}

pub proof fn lemma_count_le_add(a: Seq<(u64, u32)>, b: Seq<(u64, u32)>, ts: u64)
    ensures
        count_le(a + b, ts) == count_le(a, ts) + count_le(b, ts),
    decreases b.len(),
{
    if b.len() == 0 {
        assert(a + b =~= a);
    } else {
        assert((a + b).drop_last() =~= a + b.drop_last());
        lemma_count_le_add(a, b.drop_last(), ts);
    }
}

pub proof fn lemma_count_le_all_above(s: Seq<(u64, u32)>, ts: u64)
    requires
        forall|i: int| 0 <= i < s.len() ==> (#[trigger] s[i]).0 > ts,
    ensures
        count_le(s, ts) == 0,
    decreases s.len(),
{
    if s.len() != 0 {
        lemma_count_le_all_above(s.drop_last(), ts);
    }
}

pub proof fn lemma_count_le_all_at_or_below(s: Seq<(u64, u32)>, ts: u64)
    requires
        forall|i: int| 0 <= i < s.len() ==> (#[trigger] s[i]).0 <= ts,
    ensures
        count_le(s, ts) == s.len(),
    decreases s.len(),
{
    if s.len() != 0 {
        lemma_count_le_all_at_or_below(s.drop_last(), ts);
    }
}

/// In a sorted listing, `count_le` splits the samples exactly: everything
/// before the split is at or below `ts`, everything after is strictly above.
pub proof fn lemma_count_le_sorted(s: Seq<(u64, u32)>, ts: u64)
    requires
        sorted_by_ts(s),
    ensures
        0 <= count_le(s, ts) <= s.len(),
        forall|j: int| 0 <= j < count_le(s, ts) ==> (#[trigger] s[j]).0 <= ts,
        forall|j: int| count_le(s, ts) <= j < s.len() ==> (#[trigger] s[j]).0 > ts,
    decreases s.len(),
{
    lemma_count_le_bounds(s, ts);
    if s.len() != 0 {
        if s.last().0 <= ts {
            assert forall|i: int| 0 <= i < s.len() implies (#[trigger] s[i]).0 <= ts by {
                assert(s[i].0 <= s[s.len() - 1].0);
            }
            lemma_count_le_all_at_or_below(s, ts);
        } else {
            lemma_count_le_sorted(s.drop_last(), ts);
            let c = count_le(s, ts);
            assert(c == count_le(s.drop_last(), ts));
            assert forall|j: int| 0 <= j < c implies (#[trigger] s[j]).0 <= ts by {
                assert(s.drop_last()[j] == s[j]);
            }
            assert forall|j: int| c <= j < s.len() implies (#[trigger] s[j]).0 > ts by {
                if j < s.len() - 1 {
                    assert(s.drop_last()[j] == s[j]);
                }
            }
        }
    }
}

pub proof fn lemma_insert_into_left(a: Seq<(u64, u32)>, b: Seq<(u64, u32)>, i: int, x: (u64, u32))
    requires
        0 <= i <= a.len(),
    ensures
        (a + b).insert(i, x) == a.insert(i, x) + b,
    decreases b.len(),
{
    assert((a + b).insert(i, x) =~= a.insert(i, x) + b);
}

pub proof fn lemma_insert_into_right(a: Seq<(u64, u32)>, b: Seq<(u64, u32)>, i: int, x: (u64, u32))
    requires
        0 <= i <= b.len(),
    ensures
        (a + b).insert(a.len() + i, x) == a + b.insert(i, x),
{
    assert((a + b).insert(a.len() + i, x) =~= a + b.insert(i, x));
}

/// Inserting one sample at position `i` adds exactly that sample to the
/// multiset of samples: nothing else appears, nothing disappears.
pub proof fn lemma_insert_to_multiset(s: Seq<(u64, u32)>, i: int, x: (u64, u32))
    requires
        0 <= i <= s.len(),
    ensures
        s.insert(i, x).to_multiset() == s.to_multiset().insert(x),
{
    broadcast use vstd::seq_lib::group_to_multiset_ensures;

    let front = s.subrange(0, i);
    let back = s.subrange(i, s.len() as int);
    assert(s =~= front + back);
    vstd::seq_lib::lemma_multiset_commutative(front, back);
    vstd::seq_lib::lemma_multiset_commutative(front.push(x), back);
    assert(s.insert(i, x) == front.push(x) + back);
    assert(front.push(x).to_multiset() =~= front.to_multiset().insert(x));
    assert(front.to_multiset().insert(x).add(back.to_multiset()) =~= front.to_multiset().add(
        back.to_multiset(),
    ).insert(x));
    assert(s.insert(i, x).to_multiset() =~= s.to_multiset().insert(x));
}

/// The tie-break law. A fresh sample never displaces an existing one: in a
/// sorted listing it lands at `count_le`, every earlier sample with the same
/// timestamp keeps its place below that slot, and the listing stays sorted.
pub proof fn lemma_insert_keeps_ties_in_order(s: Seq<(u64, u32)>, timestamp: u64, heart_rate: u32)
    requires
        sorted_by_ts(s),
    ensures
        0 <= count_le(s, timestamp) <= s.len(),
        s.insert(count_le(s, timestamp), (timestamp, heart_rate))[count_le(s, timestamp)] == (
        timestamp,
        heart_rate,
        ),
        forall|j: int|
            0 <= j < s.len() && (#[trigger] s[j]).0 == timestamp ==> j < count_le(s, timestamp)
                && s.insert(count_le(s, timestamp), (timestamp, heart_rate))[j] == s[j],
        sorted_by_ts(s.insert(count_le(s, timestamp), (timestamp, heart_rate))),
{
    let pos = count_le(s, timestamp);
    let x = (timestamp, heart_rate);
    let t = s.insert(pos, x);
    lemma_count_le_sorted(s, timestamp);
    s.insert_ensures(pos, x);
    assert forall|i: int, j: int| 0 <= i <= j < t.len() implies t[i].0 <= t[j].0 by {
        if i < pos {
            assert(t[i] == s[i]);
        }
        if j < pos {
            assert(t[j] == s[j]);
        }
        if i > pos {
            assert(t[i] == s[i - 1]);
        }
        if j > pos {
            assert(t[j] == s[j - 1]);
        }
    }
}

} // verus!
