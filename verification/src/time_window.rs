//! Partition of a time range into fixed-size windows.
//!
//! Instants are whole milliseconds since the epoch. A range from
//! `start_time` to `end_time` is cut into windows of `duration`
//! milliseconds: window number `k` starts at `start_time + k * duration` and
//! ends one millisecond before the next one would start, except that no
//! window reaches past `end_time`. The first window always exists; a later
//! one exists only while its start lies strictly before `end_time`.

use vstd::prelude::*;

verus! {

/// A range of instants with both ends included, in milliseconds since the
/// epoch.
#[derive(Clone, Copy, Debug, PartialEq, Eq, Structural)]
pub struct TimeWindow {
    pub start: i64,
    pub end: i64,
}

/// The earlier of two instants.
pub open spec fn earlier(a: int, b: int) -> int {
    if a <= b {
        a
    } else {
        b
    }
}

/// Whether the range has a window number `index`.
pub open spec fn has_window(start_time: int, end_time: int, duration: int, index: nat) -> bool {
    index == 0 || start_time + index * duration < end_time
}

/// The first instant of window number `index`.
pub open spec fn window_start(start_time: int, duration: int, index: nat) -> int {
    start_time + index * duration
}

/// The last instant of window number `index`.
pub open spec fn window_end(start_time: int, end_time: int, duration: int, index: nat) -> int {
    earlier(window_start(start_time, duration, index) + duration - 1, end_time)
}

/// How many windows the range has.
pub open spec fn window_count(start_time: int, end_time: int, duration: int) -> nat {
    if end_time - start_time <= duration {
        1
    } else {
        ((end_time - start_time + duration - 1) / duration) as nat
    }
}

/// Whether `window` is window number `index` of the range.
pub open spec fn is_window(
    window: TimeWindow,
    start_time: int,
    end_time: int,
    duration: int,
    index: nat,
) -> bool {
    &&& window.start == window_start(start_time, duration, index)
    &&& window.end == window_end(start_time, end_time, duration, index)
}

/// Whether `windows` lists every window of the range, in order.
pub open spec fn are_windows(
    windows: Seq<TimeWindow>,
    start_time: int,
    end_time: int,
    duration: int,
) -> bool {
    &&& windows.len() == window_count(start_time, end_time, duration)
    &&& forall|k: int|
        0 <= k < windows.len() ==> is_window(
            #[trigger] windows[k],
            start_time,
            end_time,
            duration,
            k as nat,
        )
}

/// The windows of a range are exactly those numbered below `window_count`.
pub proof fn lemma_window_count(start_time: int, end_time: int, duration: int, index: nat)
    requires
        duration > 0,
    ensures
        has_window(start_time, end_time, duration, index) <==> index < window_count(
            start_time,
            end_time,
            duration,
        ),
{
    let span = end_time - start_time;
    if span <= duration {
        if index > 0 {
            assert(index * duration >= duration) by (nonlinear_arith)
                requires
                    index >= 1,
                    duration > 0,
            ;
        }
    } else {
        let count = (span + duration - 1) / duration;
        assert(count * duration >= span && (count - 1) * duration < span) by (nonlinear_arith)
            requires
                count == (span + duration - 1) / duration,
                duration > 0,
        ;
        if index < count {
            assert(index * duration <= (count - 1) * duration) by (nonlinear_arith)
                requires
                    index <= count - 1,
                    duration > 0,
            ;
        } else {
            assert(index * duration >= count * duration) by (nonlinear_arith)
                requires
                    index >= count,
                    duration > 0,
            ;
        }
    }
}

/// In a range that begins before it ends, each window ends one millisecond
/// before the next one begins.
pub proof fn lemma_windows_are_contiguous(
    windows: Seq<TimeWindow>,
    start_time: int,
    end_time: int,
    duration: int,
)
    requires
        duration > 0,
        start_time < end_time,
        are_windows(windows, start_time, end_time, duration),
    ensures
        forall|k: int|
            0 <= k < windows.len() - 1 ==> (#[trigger] windows[k]).end + 1 == windows[k + 1].start,
{
    assert forall|k: int| 0 <= k < windows.len() - 1 implies (#[trigger] windows[k]).end + 1
        == windows[k + 1].start by {
        lemma_window_count(start_time, end_time, duration, (k + 1) as nat);
        assert(is_window(windows[k + 1], start_time, end_time, duration, (k + 1) as nat));
        assert((k + 1) * duration == k * duration + duration) by (nonlinear_arith);
    }
}

/// In a range that begins before it ends, the last window ends at the end of
/// the range, unless the length of the range is a multiple of the duration:
/// then the last window is a full one, and ends one millisecond earlier.
pub proof fn lemma_last_window_end(
    windows: Seq<TimeWindow>,
    start_time: int,
    end_time: int,
    duration: int,
)
    requires
        duration > 0,
        start_time < end_time,
        are_windows(windows, start_time, end_time, duration),
    ensures
        windows.len() > 0,
        windows.last().end == if (end_time - start_time) % duration == 0 {
            end_time - 1
        } else {
            end_time
        },
{
    let count = window_count(start_time, end_time, duration);
    let last = (count - 1) as nat;
    lemma_window_count(start_time, end_time, duration, last);
    lemma_window_count(start_time, end_time, duration, count);
    assert(is_window(windows[last as int], start_time, end_time, duration, last));
    assert(count * duration == last * duration + duration) by (nonlinear_arith)
        requires
            count == last + 1,
    ;
    let span = end_time - start_time;
    if span % duration == 0 {
        let whole = span / duration;
        assert(span == duration * whole && whole >= 1) by (nonlinear_arith)
            requires
                span % duration == 0,
                whole == span / duration,
                duration > 0,
                span > 0,
        ;
        assert(count <= whole) by (nonlinear_arith)
            requires
                last == 0 || last * duration < duration * whole,
                count == last + 1,
                whole >= 1,
                duration > 0,
        ;
        assert(count * duration <= span) by (nonlinear_arith)
            requires
                count <= whole,
                span == duration * whole,
                duration > 0,
        ;
    } else {
        if count * duration == span {
            assert(span % duration == 0) by (nonlinear_arith)
                requires
                    count * duration == span,
                    duration > 0,
            ;
        }
    }
}

/// The last instant of the window that starts at `window_start`: one
/// millisecond before the next window would start, or `end_time` if that
/// comes first.
pub fn window_end_from(window_start: i64, end_time: i64, duration: i64) -> (end: i64)
    requires
        duration > 0,
    ensures
        end == earlier(window_start + duration - 1, end_time as int),
{
    let reach: i128 = window_start as i128 + duration as i128 - 1;
    if reach <= end_time as i128 {
        reach as i64
    } else {
        end_time
    }
}

/// The start of the window after the one that starts at `window_start`, if
/// the range has one.
pub fn next_window_start(window_start: i64, end_time: i64, duration: i64) -> (next: Option<i64>)
    requires
        duration > 0,
    ensures
        next is Some <==> window_start + duration < end_time,
        next matches Some(start) ==> start == window_start + duration,
{
    let candidate: i128 = window_start as i128 + duration as i128;
    if candidate < end_time as i128 {
        Some(candidate as i64)
    } else {
        None
    }
}

/// The first window of the range. It exists for every range, also for one
/// that ends before it starts.
pub fn first_window(start_time: i64, end_time: i64, duration: i64) -> (window: TimeWindow)
    requires
        duration > 0,
    ensures
        is_window(window, start_time as int, end_time as int, duration as int, 0),
{
    assert(0 * duration == 0);
    TimeWindow { start: start_time, end: window_end_from(start_time, end_time, duration) }
}

/// The window that follows `window` in a range that ends at `end_time`;
/// `None` where `window` is the last one.
pub fn next_window(window: &TimeWindow, end_time: i64, duration: i64) -> (next: Option<TimeWindow>)
    requires
        duration > 0,
    ensures
        next is Some <==> window.start + duration < end_time,
        next matches Some(w) ==> {
            &&& w.start == window.start + duration
            &&& w.end == earlier(w.start + duration - 1, end_time as int)
        },
{
    match next_window_start(window.start, end_time, duration) {
        Some(start) => Some(
            TimeWindow { start, end: window_end_from(start, end_time, duration) },
        ),
        None => None,
    }
}

/// Window number `index` of the range, if the range has one.
pub fn window_at(start_time: i64, end_time: i64, duration: i64, index: u64) -> (window: Option<
    TimeWindow,
>)
    requires
        duration > 0,
    ensures
        window is Some <==> has_window(
            start_time as int,
            end_time as int,
            duration as int,
            index as nat,
        ),
        window matches Some(w) ==> is_window(
            w,
            start_time as int,
            end_time as int,
            duration as int,
            index as nat,
        ),
{
    assert(0 <= index * duration <= 0xffff_ffff_ffff_ffff * 0x7fff_ffff_ffff_ffff)
        by (nonlinear_arith)
        requires
            0 <= index <= 0xffff_ffff_ffff_ffff,
            0 < duration <= 0x7fff_ffff_ffff_ffff,
    ;
    let offset: i128 = index as i128 * duration as i128;
    let start: i128 = start_time as i128 + offset;
    if index == 0 || start < end_time as i128 {
        let start: i64 = start as i64;
        Some(TimeWindow { start, end: window_end_from(start, end_time, duration) })
    } else {
        None
    }
}

/// Every window of the range, in order.
pub fn time_windows(start_time: i64, end_time: i64, duration: i64) -> (windows: Vec<TimeWindow>)
    requires
        duration > 0,
    ensures
        are_windows(windows@, start_time as int, end_time as int, duration as int),
{
    let mut windows: Vec<TimeWindow> = Vec::new();
    let mut current = first_window(start_time, end_time, duration);
    let ghost count = window_count(start_time as int, end_time as int, duration as int);
    proof {
        lemma_window_count(start_time as int, end_time as int, duration as int, 0);
    }
    loop
        invariant_except_break
            windows.len() < count,
            is_window(
                current,
                start_time as int,
                end_time as int,
                duration as int,
                windows.len() as nat,
            ),
        invariant
            duration > 0,
            count == window_count(start_time as int, end_time as int, duration as int),
            forall|k: int|
                0 <= k < windows.len() ==> is_window(
                    #[trigger] windows[k],
                    start_time as int,
                    end_time as int,
                    duration as int,
                    k as nat,
                ),
        ensures
            are_windows(windows@, start_time as int, end_time as int, duration as int),
        decreases count - windows.len(),
    {
        let ghost index = windows.len() as nat;
        let next = next_window(&current, end_time, duration);
        windows.push(current);
        proof {
            assert((index + 1) * duration == index * duration + duration) by (nonlinear_arith);
            lemma_window_count(start_time as int, end_time as int, duration as int, index + 1);
        }
        match next {
            Some(window) => {
                current = window;
            },
            None => {
                break ;
            },
        }
    }
    windows
}

} // verus!
