use std::time::Instant;

use snarkos_node_bft::cdn::{
    after_process, cdn_range, cdn_tip_height, insert_pending_block, log_progress, num_bundle_requests, sync_progress,
    take_next_bundle, CdnRange, CdnRangeError,
};

#[test]
fn test_log_progress() {
    // This test sanity checks that basic arithmetic is correct (i.e. no divide by zero, etc.).
    let timer = Instant::now();
    let cdn_start = 0;
    let cdn_end = 100;
    let object_name = "blocks";
    log_progress::<10>(timer, 0, cdn_start, cdn_end, object_name);
    log_progress::<10>(timer, 10, cdn_start, cdn_end, object_name);
    log_progress::<10>(timer, 20, cdn_start, cdn_end, object_name);
    log_progress::<10>(timer, 30, cdn_start, cdn_end, object_name);
    log_progress::<10>(timer, 40, cdn_start, cdn_end, object_name);
    log_progress::<10>(timer, 50, cdn_start, cdn_end, object_name);
    log_progress::<10>(timer, 60, cdn_start, cdn_end, object_name);
    log_progress::<10>(timer, 70, cdn_start, cdn_end, object_name);
    log_progress::<10>(timer, 80, cdn_start, cdn_end, object_name);
    log_progress::<10>(timer, 90, cdn_start, cdn_end, object_name);
    log_progress::<10>(timer, 100, cdn_start, cdn_end, object_name);
}

#[test]
fn test_sync_progress_values() {
    let p = sync_progress(10, 2000, 50, 0, 100, "blocks");
    assert_eq!(p.last_index, 99);
    assert_eq!(p.percentage, 50);
    assert_eq!(p.num_files_done, 6);
    assert_eq!(p.num_files_remaining, 5);
    assert_eq!(p.millis_per_file, 333);
    assert_eq!(p.time_remaining_millis, 5 * 333 + 500);
    assert_eq!(p.minutes_remaining, 0);
    assert_eq!(p.object_name, "blocks");
    let late = sync_progress(50, 600_000, 120, 100, 121, "blocks");
    assert_eq!(late.num_files_remaining, 1);
    assert_eq!(late.percentage, 100);
}

#[test]
fn test_cdn_tip_height() {
    assert_eq!(cdn_tip_height(0), 50);
    assert_eq!(cdn_tip_height(59), 50);
    assert_eq!(cdn_tip_height(60), 100);
    assert_eq!(cdn_tip_height(1234), 1250);
}

#[test]
fn test_cdn_range() {
    assert_eq!(cdn_range(46, Some(234), 1000), Ok(CdnRange { start_height: 46, end_height: 234, cdn_start: 0, cdn_end: 234 }));
    assert_eq!(cdn_range(50, None, 100), Ok(CdnRange { start_height: 50, end_height: 100, cdn_start: 50, cdn_end: 100 }));
    assert_eq!(cdn_range(0, Some(5000), 123), Ok(CdnRange { start_height: 0, end_height: 123, cdn_start: 0, cdn_end: 123 }));
    assert_eq!(cdn_range(200, None, 100), Err(CdnRangeError::StartBeyondCdn));
    assert_eq!(cdn_range(60, Some(55), 100), Err(CdnRangeError::EndBelowStart));
    let r = cdn_range(100, None, 100).unwrap();
    assert!(r.is_empty());
}

#[test]
fn test_num_bundle_requests() {
    assert_eq!(num_bundle_requests(0, 0), 16);
    assert_eq!(num_bundle_requests(0, 5), 11);
    assert_eq!(num_bundle_requests(1500, 0), 2);
    assert_eq!(num_bundle_requests(1600, 0), 0);
    assert_eq!(num_bundle_requests(1000, 20), 0);
}

#[test]
fn test_insert_pending_block() {
    let mut pending: Vec<(u32, &str)> = Vec::new();
    assert!(insert_pending_block(&mut pending, 5, "e"));
    assert!(insert_pending_block(&mut pending, 1, "a"));
    assert!(insert_pending_block(&mut pending, 3, "c"));
    assert!(!insert_pending_block(&mut pending, 3, "x"));
    assert_eq!(pending, vec![(1, "a"), (3, "c"), (5, "e")]);
}

#[test]
fn test_take_next_bundle_waits() {
    let range = CdnRange { start_height: 46, end_height: 234, cdn_start: 0, cdn_end: 234 };
    let mut pending: Vec<(u32, char)> = Vec::new();
    assert_eq!(take_next_bundle(&range, 45, &mut pending), None);
    // A gap before the first pending block: wait, and keep the blocks.
    pending = vec![(47, 'a'), (48, 'b')];
    assert_eq!(take_next_bundle(&range, 45, &mut pending), None);
    assert_eq!(pending, vec![(47, 'a'), (48, 'b')]);
}

#[test]
fn test_take_next_bundle_takes_a_file() {
    let range = CdnRange { start_height: 46, end_height: 234, cdn_start: 0, cdn_end: 234 };
    let mut pending: Vec<(u32, u32)> = (0..120).map(|h| (h, h * 10)).collect();
    let bundle = take_next_bundle(&range, 45, &mut pending).unwrap();
    // The first 50 pending blocks are taken; those below the start height are dropped.
    assert_eq!(bundle, (46..50).map(|h| (h, h * 10)).collect::<Vec<_>>());
    assert_eq!(pending, (50..120).map(|h| (h, h * 10)).collect::<Vec<_>>());
    // Fewer than a file's worth: all are taken, and those past the end height dropped.
    let mut pending: Vec<(u32, u32)> = (230..240).map(|h| (h, h)).collect();
    let bundle = take_next_bundle(&range, 229, &mut pending).unwrap();
    assert_eq!(bundle, (230..234).map(|h| (h, h)).collect::<Vec<_>>());
    assert!(pending.is_empty());
}

#[test]
fn test_after_process() {
    assert_eq!(after_process(45, 46, true), Ok(46));
    assert_eq!(after_process(45, 46, false), Err(45));
}

#[test]
fn test_cdn_range_error_message() {
    assert_eq!(CdnRangeError::StartBeyondCdn.message(), "The given start height must be less than the CDN height");
}
