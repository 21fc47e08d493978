//! The arithmetic of loading blocks from a content delivery network: the range of block
//! bundles to fetch, how many requests to keep in flight, the order of pending blocks,
//! and the progress report.
use vstd::prelude::*;
use std::time::{Duration, Instant};

use vstd::string::StringExecFns;

verus! {

/// The number of blocks per file.
pub const BLOCKS_PER_FILE: u32 = 50;

/// The desired number of concurrent requests to the CDN.
pub const CONCURRENT_REQUESTS: u32 = 16;

/// The maximum number of pending sync blocks.
pub const MAXIMUM_PENDING_BLOCKS: u32 = 1600;

/// The maximum number of attempts for a request to the CDN.
pub const MAXIMUM_REQUEST_ATTEMPTS: u8 = 10;

/// A point in time of the monotonic clock.
#[verifier::external_type_specification]
#[verifier::external_body]
pub struct ExInstant(Instant);

/// Calls `std::time::Instant::elapsed`. The time that passed depends on the clock, so
/// nothing is claimed of the result.
#[verifier::external_body]
fn instant_elapsed(timer: &Instant) -> (r: Duration) {
    timer.elapsed()
}

/// Calls `std::time::Duration::as_millis`. A `Duration` holds at most `u64::MAX` whole
/// seconds and fewer than a billion nanoseconds, so the whole milliseconds in it are at
/// most `u64::MAX * 1000 + 999`.
#[verifier::external_body]
fn duration_as_millis(d: &Duration) -> (r: u128)
    ensures
        r <= u64::MAX as int * 1000 + 999,
{
    d.as_millis()
}

/// The progress of a sync, as the log line reports it.
#[derive(Clone, Debug)]
pub struct SyncProgress {
    /// The index that was reached.
    pub current_index: u32,
    /// The last index of the range (the exclusive end minus one).
    pub last_index: u32,
    /// The percentage of the range completed.
    pub percentage: u32,
    /// The number of files processed so far.
    pub num_files_done: u32,
    /// The number of files remaining.
    pub num_files_remaining: u32,
    /// The milliseconds spent per file so far.
    pub millis_per_file: u128,
    /// The estimated milliseconds remaining.
    pub time_remaining_millis: u128,
    /// The estimated whole minutes remaining.
    pub minutes_remaining: u128,
    /// The name of the objects being synced.
    pub object_name: String,
}

/// The inputs on which the progress arithmetic is defined: a range of at least two
/// indices, an index that has reached the start, a percentage that fits, and files of at
/// least one object.
pub open spec fn progress_defined(
    objects_per_file: u32,
    current_index: u32,
    cdn_start: u32,
    cdn_end: u32,
) -> bool {
    &&& objects_per_file > 0
    &&& cdn_end >= 2
    &&& cdn_start <= current_index
    &&& current_index as int * 100 <= u32::MAX
}

/// The number of files remaining after `current_index`, where `last` is the last index.
pub open spec fn spec_files_remaining(objects_per_file: u32, current_index: u32, last: u32) -> int {
    1 + (if last >= current_index { (last - current_index) as int } else { 0int })
        / objects_per_file as int
}

/// `true` if `p` is the progress at `current_index` of the range `cdn_start..cdn_end`,
/// after `elapsed_millis` milliseconds.
pub open spec fn is_progress(
    p: SyncProgress,
    objects_per_file: u32,
    elapsed_millis: u128,
    current_index: u32,
    cdn_start: u32,
    cdn_end: u32,
) -> bool {
    let last = (cdn_end - 1) as u32;
    let done = 1 + (current_index - cdn_start) / objects_per_file as int;
    let remaining = spec_files_remaining(objects_per_file, current_index, last);
    &&& p.current_index == current_index
    &&& p.last_index == last
    &&& p.percentage == current_index as int * 100 / last as int
    &&& p.num_files_done == done
    &&& p.num_files_remaining == remaining
    &&& p.millis_per_file == elapsed_millis as int / done
    &&& p.time_remaining_millis == remaining * p.millis_per_file + 100 * remaining
    &&& p.minutes_remaining == p.time_remaining_millis / 60000
}

/// Computes the progress at `current_index` of the range `cdn_start..cdn_end`
/// (exclusive end), after `elapsed_millis` milliseconds.
pub fn sync_progress(
    objects_per_file: u32,
    elapsed_millis: u128,
    current_index: u32,
    cdn_start: u32,
    cdn_end: u32,
    object_name: &str,
) -> (r: SyncProgress)
    requires
        progress_defined(objects_per_file, current_index, cdn_start, cdn_end),
        elapsed_millis <= u64::MAX as int * 1000 + 999,
    ensures
        is_progress(r, objects_per_file, elapsed_millis, current_index, cdn_start, cdn_end),
        r.object_name@ == object_name@,
{
    // Subtract 1, as the end of the range is exclusive.
    let last = cdn_end - 1;
    let percentage = current_index * 100 / last;
    let num_files_done = 1 + (current_index - cdn_start) / objects_per_file;
    let num_files_remaining = 1 + last.saturating_sub(current_index) / objects_per_file;
    let millis_per_file = elapsed_millis / (num_files_done as u128);
    let slowdown = 100 * (num_files_remaining as u128);
    assert(millis_per_file <= elapsed_millis) by (nonlinear_arith)
        requires
            millis_per_file == elapsed_millis / (num_files_done as u128),
            num_files_done >= 1,
    ;
    assert((num_files_remaining as u128) * millis_per_file <= 0x1_0000_0000 * (u64::MAX as int
        * 1000 + 999)) by (nonlinear_arith)
        requires
            millis_per_file <= u64::MAX as int * 1000 + 999,
            num_files_remaining <= 0x1_0000_0000,
    ;
    let time_remaining = (num_files_remaining as u128) * millis_per_file + slowdown;
    SyncProgress {
        current_index,
        last_index: last,
        percentage,
        num_files_done,
        num_files_remaining,
        millis_per_file,
        time_remaining_millis: time_remaining,
        minutes_remaining: time_remaining / 60000,
        object_name: String::from_str(object_name),
    }
}

/// Computes the progress of a sync at `current_index`, with the time taken since `timer`.
/// The millisecond figures rest on the clock; the others are fixed by the arguments.
pub fn log_progress<const OBJECTS_PER_FILE: u32>(
    timer: Instant,
    current_index: u32,
    cdn_start: u32,
    cdn_end: u32,
    object_name: &str,
) -> (r: SyncProgress)
    requires
        progress_defined(OBJECTS_PER_FILE, current_index, cdn_start, cdn_end),
    ensures
        exists|elapsed: u128|
            #[trigger] is_progress(r, OBJECTS_PER_FILE, elapsed, current_index, cdn_start, cdn_end),
        r.object_name@ == object_name@,
{
    let elapsed = instant_elapsed(&timer);
    let millis = duration_as_millis(&elapsed);
    sync_progress(OBJECTS_PER_FILE, millis, current_index, cdn_start, cdn_end, object_name)
}

/// The CDN height for a latest exclusive height: the tip, less ten blocks so that the CDN
/// has caught up, raised to the next multiple of the file size.
pub open spec fn spec_cdn_tip_height(exclusive_height: u32) -> int {
    let tip = if exclusive_height >= 10 { exclusive_height - 10 } else { 0int };
    tip - tip % BLOCKS_PER_FILE as int + BLOCKS_PER_FILE as int
}

/// Adjusts the latest exclusive height that the CDN reports to the height that is loaded
/// from it.
pub fn cdn_tip_height(exclusive_height: u32) -> (r: u32)
    requires
        spec_cdn_tip_height(exclusive_height) <= u32::MAX,
    ensures
        r == spec_cdn_tip_height(exclusive_height),
        r % BLOCKS_PER_FILE == 0,
        r > 0,
{
    // Decrement the tip by a few blocks to ensure the CDN is caught up.
    let tip = exclusive_height.saturating_sub(10);
    // Adjust the tip to the closest subsequent multiple of BLOCKS_PER_FILE.
    tip - (tip % BLOCKS_PER_FILE) + BLOCKS_PER_FILE
}

/// The range of heights to load from the CDN.
#[derive(Clone, Copy, Debug, PartialEq, Eq, Structural)]
pub struct CdnRange {
    /// The first height to load.
    pub start_height: u32,
    /// The height to load up to (exclusive).
    pub end_height: u32,
    /// The first height of the first file that holds `start_height`.
    pub cdn_start: u32,
    /// The end of the range of files.
    pub cdn_end: u32,
}

impl CdnRange {
    /// `true` if there is nothing to load.
    pub open spec fn spec_is_empty(self) -> bool {
        self.cdn_start >= self.cdn_end
    }

    /// `true` if there is nothing to load.
    pub fn is_empty(&self) -> (r: bool)
        ensures
            r == self.spec_is_empty(),
    {
        self.cdn_start >= self.cdn_end
    }
}

/// Why a range of heights cannot be loaded from the CDN.
#[derive(Clone, Copy, Debug, PartialEq, Eq, Structural)]
pub enum CdnRangeError {
    /// The start height is beyond the CDN height.
    StartBeyondCdn,
    /// The end height is below the start height.
    EndBelowStart,
}

/// The range that loading from `start_height` up to `end_height` (or the CDN height)
/// covers, or why there is none.
pub open spec fn spec_cdn_range(start_height: u32, end_height: Option<u32>, cdn_height: u32) -> Result<
    CdnRange,
    CdnRangeError,
> {
    if cdn_height < start_height {
        Err(CdnRangeError::StartBeyondCdn)
    } else {
        let wanted = match end_height {
            Some(e) => e,
            None => cdn_height,
        };
        let end = if wanted < cdn_height { wanted } else { cdn_height };
        if end < start_height {
            Err(CdnRangeError::EndBelowStart)
        } else {
            Ok(
                CdnRange {
                    start_height,
                    end_height: end,
                    cdn_start: (start_height - start_height % BLOCKS_PER_FILE) as u32,
                    cdn_end: end,
                },
            )
        }
    }
}

/// Determines the range of heights to load from the CDN, given the CDN height.
pub fn cdn_range(start_height: u32, end_height: Option<u32>, cdn_height: u32) -> (r: Result<
    CdnRange,
    CdnRangeError,
>)
    ensures
        r == spec_cdn_range(start_height, end_height, cdn_height),
{
    // If the CDN height is less than the start height, there is nothing to load.
    if cdn_height < start_height {
        return Err(CdnRangeError::StartBeyondCdn);
    }
    // The end height is at most the CDN height.
    let wanted = match end_height {
        Some(e) => e,
        None => cdn_height,
    };
    let end = if wanted < cdn_height {
        wanted
    } else {
        cdn_height
    };
    if end < start_height {
        return Err(CdnRangeError::EndBelowStart);
    }
    Ok(
        CdnRange {
            start_height,
            end_height: end,
            cdn_start: start_height - (start_height % BLOCKS_PER_FILE),
            cdn_end: end,
        },
    )
}

/// The number of bundle requests to start: the concurrency target, unless the limit on
/// pending blocks would be breached, less the requests already in flight.
pub open spec fn spec_num_bundle_requests(num_pending: usize, active: u32) -> int {
    if num_pending >= MAXIMUM_PENDING_BLOCKS {
        0
    } else {
        let room = (MAXIMUM_PENDING_BLOCKS - num_pending) / BLOCKS_PER_FILE as int;
        let target = if (CONCURRENT_REQUESTS as int) < room {
            CONCURRENT_REQUESTS as int
        } else {
            room
        };
        if target > active {
            target - active
        } else {
            0
        }
    }
}

/// Decides how many bundles of blocks to request next, given the number of pending blocks
/// and the number of requests in flight. None is started while the pending blocks are at
/// their limit.
pub fn num_bundle_requests(num_pending: usize, active: u32) -> (r: u32)
    ensures
        r == spec_num_bundle_requests(num_pending, active),
        r <= CONCURRENT_REQUESTS,
        num_pending as int + r as int * BLOCKS_PER_FILE as int <= MAXIMUM_PENDING_BLOCKS
            || r == 0,
{
    if num_pending >= MAXIMUM_PENDING_BLOCKS as usize {
        return 0;
    }
    let pending = num_pending as u32;
    let room = (MAXIMUM_PENDING_BLOCKS - pending) / BLOCKS_PER_FILE;
    let target = if CONCURRENT_REQUESTS < room {
        CONCURRENT_REQUESTS
    } else {
        room
    };
    assert(room * BLOCKS_PER_FILE <= MAXIMUM_PENDING_BLOCKS - pending) by (nonlinear_arith)
        requires
            room == (MAXIMUM_PENDING_BLOCKS - pending) as int / 50,
            pending < MAXIMUM_PENDING_BLOCKS,
    ;
    target.saturating_sub(active)
}

/// `true` if the heights of the entries strictly increase.
pub open spec fn heights_increasing<B>(s: Seq<(u32, B)>) -> bool {
    forall|i: int, j: int| 0 <= i < j < s.len() ==> s[i].0 < s[j].0
}

/// Inserts a downloaded block into the pending blocks, which are kept sorted by height.
/// A block at a height that is already pending is dropped, and `false` is returned.
pub fn insert_pending_block<B>(pending: &mut Vec<(u32, B)>, height: u32, block: B) -> (r: bool)
    requires
        heights_increasing(old(pending)@),
    ensures
        heights_increasing(final(pending)@),
        r == !(exists|i: int| 0 <= i < old(pending)@.len() && old(pending)@[i].0 == height),
        !r ==> final(pending)@ == old(pending)@,
        r ==> exists|k: int|
            0 <= k <= old(pending)@.len() && final(pending)@ == old(pending)@.insert(
                k,
                (height, block),
            ),
{
    // Binary search for the first position whose height is not below `height`.
    let mut lo: usize = 0;
    let mut hi: usize = pending.len();
    while lo < hi
        invariant
            0 <= lo <= hi <= pending@.len(),
            heights_increasing(pending@),
            forall|i: int| 0 <= i < lo ==> pending@[i].0 < height,
            forall|i: int| hi <= i < pending@.len() ==> pending@[i].0 >= height,
        decreases hi - lo,
    {
        let mid = lo + (hi - lo) / 2;
        if pending[mid].0 < height {
            lo = mid + 1;
        } else {
            hi = mid;
        }
    }
    if lo < pending.len() && pending[lo].0 == height {
        return false;
    }
    let ghost old_seq = pending@;
    proof {
        assert forall|i: int| 0 <= i < old_seq.len() implies old_seq[i].0 != height by {
            if i >= lo {
                assert(old_seq[lo as int].0 <= old_seq[i].0);
            }
        }
    }
    pending.insert(lo, (height, block));
    proof {
        assert(pending@ == old_seq.insert(lo as int, (height, block)));
        assert forall|i: int, j: int| 0 <= i < j < pending@.len() implies pending@[i].0
            < pending@[j].0 by {
            if i < lo && j > lo {
                assert(pending@[j] == old_seq[j - 1]);
            } else if i > lo {
                assert(pending@[i] == old_seq[i - 1]);
                assert(pending@[j] == old_seq[j - 1]);
            } else if j < lo {
            } else if i == lo {
                assert(pending@[j] == old_seq[j - 1]);
            }
        }
    }
    true
}

/// `true` if the height lies in the range to load, `start_height..end_height`.
pub open spec fn in_load_range(range: CdnRange, height: u32) -> bool {
    range.start_height <= height < range.end_height
}

/// The blocks of the sequence whose heights lie in the range to load, in order.
pub open spec fn blocks_in_range<B>(range: CdnRange, s: Seq<(u32, B)>) -> Seq<(u32, B)> {
    s.filter(|e: (u32, B)| in_load_range(range, e.0))
}

/// The number of pending blocks that the next bundle takes: a file's worth, or all of
/// them where fewer are pending.
pub open spec fn spec_bundle_len(len: nat) -> int {
    if len < BLOCKS_PER_FILE { len as int } else { BLOCKS_PER_FILE as int }
}

/// `true` if the pending blocks can be processed now: there is one, and the first is at
/// most the height after `current_height`.
pub open spec fn bundle_ready<B>(current_height: u32, pending: Seq<(u32, B)>) -> bool {
    pending.len() > 0 && pending[0].0 <= current_height + 1
}

/// Takes the next bundle of blocks to process. Where no block is pending, or the first
/// pending block is past the height after `current_height` (a gap to wait for), returns
/// `None` and leaves the pending blocks as they are. Otherwise removes the first
/// `BLOCKS_PER_FILE` pending blocks (or all, where fewer are pending) and returns those
/// of them whose heights lie in the range to load, in order.
pub fn take_next_bundle<B>(range: &CdnRange, current_height: u32, pending: &mut Vec<(u32, B)>) -> (r: Option<
    Vec<(u32, B)>,
>)
    requires
        heights_increasing(old(pending)@),
    ensures
        heights_increasing(final(pending)@),
        !bundle_ready(current_height, old(pending)@) ==> r is None && final(pending)@ == old(pending)@,
        bundle_ready(current_height, old(pending)@) ==> {
            let k = spec_bundle_len(old(pending)@.len());
            &&& final(pending)@ == old(pending)@.skip(k)
            &&& r matches Some(v) && v@ == blocks_in_range(*range, old(pending)@.take(k))
        },
{
    if pending.len() == 0 {
        return None;
    }
    if pending[0].0 as u64 > current_height as u64 + 1 {
        return None;
    }
    let ghost s = pending@;
    let k: usize = if pending.len() < BLOCKS_PER_FILE as usize { pending.len() } else { BLOCKS_PER_FILE as usize };
    let mut rest = pending.split_off(k);
    std::mem::swap(pending, &mut rest);
    // `rest` now holds the first `k` pending blocks.
    assert(rest@ == s.take(k as int));
    assert(pending@ == s.skip(k as int));
    assert forall|i: int, j: int| 0 <= i < j < pending@.len() implies pending@[i].0 < pending@[j].0 by {
        assert(pending@[i] == s[i + k]);
        assert(pending@[j] == s[j + k]);
    }
    let ghost taken = rest@;
    let _n: usize = rest.len();
    let mut out: Vec<(u32, B)> = Vec::new();
    let mut i: usize = 0;
    while rest.len() > 0
        invariant
            i <= taken.len(),
            taken.len() <= usize::MAX,
            rest@ == taken.subrange(i as int, taken.len() as int),
            out@ == blocks_in_range(*range, taken.subrange(0, i as int)),
        decreases rest.len(),
    {
        let e = rest.remove(0);
        proof {
            assert(e == taken[i as int]);
            assert(taken.subrange(0, i as int + 1) =~= taken.subrange(0, i as int).push(e));
            taken.subrange(0, i as int).lemma_filter_push(e, |e: (u32, B)| in_load_range(*range, e.0));
        }
        if range.start_height <= e.0 && e.0 < range.end_height {
            out.push(e);
        }
        i = i + 1;
    }
    assert(taken.subrange(0, taken.len() as int) =~= taken);
    Some(out)
}

/// The outcome of processing a block at `block_height` while at `current_height`: on
/// success the height advances to the block's; on failure the last height reached is kept
/// and returned with the error.
pub fn after_process(current_height: u32, block_height: u32, ok: bool) -> (r: Result<u32, u32>)
    ensures
        ok ==> r == Ok::<u32, u32>(block_height),
        !ok ==> r == Err::<u32, u32>(current_height),
{
    if ok {
        Ok(block_height)
    } else {
        Err(current_height)
    }
}

/// The text of the error.
pub open spec fn spec_cdn_range_message(e: CdnRangeError) -> Seq<char> {
    match e {
        CdnRangeError::StartBeyondCdn => "The given start height must be less than the CDN height"@,
        CdnRangeError::EndBelowStart => "The given end height must not be less than the start height"@,
    }
}

impl CdnRangeError {
    /// The error's message.
    pub fn message(&self) -> (r: String)
        ensures
            r@ == spec_cdn_range_message(*self),
    {
        let mut s = String::new();
        match self {
            CdnRangeError::StartBeyondCdn => {
                s.append("The given start height must be less than the CDN height");
            },
            CdnRangeError::EndBelowStart => {
                s.append("The given end height must not be less than the start height");
            },
        }
        s
    }
}

} // verus!
