use vstd::prelude::*;

verus! {

/// Where the trailing window opens: one minute before `current_time`,
/// clamped at the epoch so an early query never underflows.
pub open spec fn win_start(current_time: u64) -> u64 {
    if current_time >= 60 {
        (current_time - 60) as u64
    } else {
        0
    }
}

/// A timestamp lies in the closed window `[start, end]`.
pub open spec fn in_window(ts: u64, start: u64, end: u64) -> bool {
    start <= ts && ts <= end
}

/// Sum of the heart rates of the samples whose timestamp lies in the window.
pub open spec fn win_sum(s: Seq<(u64, u32)>, start: u64, end: u64) -> int
    decreases s.len(),
{
    if s.len() == 0 {
        0
    } else {
        win_sum(s.drop_last(), start, end) + (if in_window(s.last().0, start, end) {
            s.last().1 as int
        } else {
            0int
        })
    }
}

/// How many samples carry a timestamp in the window.
pub open spec fn win_count(s: Seq<(u64, u32)>, start: u64, end: u64) -> int
    decreases s.len(),
{
    if s.len() == 0 {
        0
    } else {
        win_count(s.drop_last(), start, end) + (if in_window(s.last().0, start, end) {
            1int
        } else {
            0int
        })
    }
}

pub proof fn lemma_win_bounds(s: Seq<(u64, u32)>, start: u64, end: u64)
    ensures
        0 <= win_sum(s, start, end),
        0 <= win_count(s, start, end) <= s.len(),
    decreases s.len(),
{
    if s.len() != 0 {
        lemma_win_bounds(s.drop_last(), start, end);
    }
}

pub proof fn lemma_win_add(a: Seq<(u64, u32)>, b: Seq<(u64, u32)>, start: u64, end: u64)
    ensures
        win_sum(a + b, start, end) == win_sum(a, start, end) + win_sum(b, start, end),
        win_count(a + b, start, end) == win_count(a, start, end) + win_count(b, start, end),
    decreases b.len(),
{
    if b.len() == 0 {
        assert(a + b =~= a);
    } else {
        assert((a + b).drop_last() =~= a + b.drop_last());
        lemma_win_add(a, b.drop_last(), start, end);
    }
}

pub proof fn lemma_win_singleton(m: (u64, u32), start: u64, end: u64)
    ensures
        win_sum(seq![m], start, end) == (if in_window(m.0, start, end) {
            m.1 as int
        } else {
            0int
        }),
        win_count(seq![m], start, end) == (if in_window(m.0, start, end) {
            1int
        } else {
            0int
        }),
{
    let e = Seq::<(u64, u32)>::empty();
    assert(win_sum(e, start, end) == 0);
    assert(win_count(e, start, end) == 0);
    assert(seq![m].drop_last() =~= e);
    assert(seq![m].last() == m);
}

/// The empty-window law: with no samples at all, every window holds a zero
/// sum and a zero count, whatever instant is asked about.
pub proof fn lemma_empty_window(current_time: u64)
    ensures
        win_sum(Seq::<(u64, u32)>::empty(), win_start(current_time), current_time) == 0,
        win_count(Seq::<(u64, u32)>::empty(), win_start(current_time), current_time) == 0,
{
}

} // verus!
