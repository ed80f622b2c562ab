use diskus::filesize::{FilesizeType, Metadata, BLOCK_SIZE};
use diskus::unique_id::{generate_unique_id, UniqueID};
use diskus::walk::{dir_read_failure, grand_total, sort_by_size, visit_entry, Aggregator, Error, Message, Walk};

fn file_meta(len: u64, nlink: u64, device: u64, inode: u64) -> Metadata {
    Metadata { is_dir: false, is_file: true, len, blocks: (len + 511) / 512, device, inode, nlink }
}

fn dir_meta(len: u64, inode: u64) -> Metadata {
    Metadata { is_dir: true, is_file: false, len, blocks: 8, device: 1, inode, nlink: 2 }
}

#[test]
fn size_of_single_file() {
    // One regular file of 100 logical bytes, apparent-size mode, one worker.
    let walk = Walk::new(vec![String::from("file-100-byte")], 1, FilesizeType::ApparentSize);
    let mut agg = Aggregator::new(walk.root_directories.len());
    let meta = file_meta(100, 1, 1, 42);
    let (msg, recurse) = visit_entry(String::from("file-100-byte"), 0, Some(meta), walk.filesize_type);
    assert!(!recurse);
    assert!(agg.accepts(&msg));
    agg.process(msg);
    agg.process(Message::FinishedEntry(0));
    let (sizes, errors) = agg.finish();
    assert!(!sizes.is_empty(), "Should not be empty");
    assert_eq!(sizes, vec![(0, 100)]);
    assert!(errors.is_empty());
}

#[test]
fn unreadable_subdir_still_counts_the_rest() {
    // A directory holding one unreadable subdirectory and one 50-byte file:
    // one directory-unreadable error, and the total still covers the root
    // directory entry, the subdirectory entry and the readable file.
    let mut agg = Aggregator::new(1);
    let root_dir = visit_entry(String::from("top"), 0, Some(dir_meta(4096, 1)), FilesizeType::ApparentSize);
    assert!(root_dir.1);
    agg.process(root_dir.0);
    let sub_dir = visit_entry(String::from("top/locked"), 0, Some(dir_meta(4096, 2)), FilesizeType::ApparentSize);
    agg.process(sub_dir.0);
    agg.process(dir_read_failure(String::from("top/locked")));
    let file = visit_entry(String::from("top/data"), 0, Some(file_meta(50, 1, 1, 3)), FilesizeType::ApparentSize);
    agg.process(file.0);
    agg.process(Message::FinishedEntry(0));
    let (sizes, errors) = agg.finish();
    assert_eq!(errors.len(), 1);
    assert!(matches!(&errors[0], Error::CouldNotReadDir(p) if p == "top/locked"));
    assert_eq!(sizes.len(), 1);
    assert_eq!(sizes[0].0, 0);
    assert_eq!(sizes[0].1, 4096 + 4096 + 50);
    assert!(sizes[0].1 >= 50);

    // Workers interleave arbitrarily: another arrival order gives the same
    // total and the same single error.
    let mut other = Aggregator::new(1);
    let file = visit_entry(String::from("top/data"), 0, Some(file_meta(50, 1, 1, 3)), FilesizeType::ApparentSize);
    other.process(file.0);
    let sub_dir = visit_entry(String::from("top/locked"), 0, Some(dir_meta(4096, 2)), FilesizeType::ApparentSize);
    other.process(sub_dir.0);
    let root_dir = visit_entry(String::from("top"), 0, Some(dir_meta(4096, 1)), FilesizeType::ApparentSize);
    other.process(root_dir.0);
    other.process(dir_read_failure(String::from("top/locked")));
    other.process(Message::FinishedEntry(0));
    let (other_sizes, other_errors) = other.finish();
    assert_eq!(other_sizes, sizes);
    assert_eq!(other_errors.len(), 1);
}

#[test]
fn missing_metadata_is_an_error() {
    let (msg, recurse) = visit_entry(String::from("gone"), 0, None, FilesizeType::DiskUsage);
    assert!(!recurse);
    assert!(matches!(
        &msg,
        Message::Error { error: Error::NoMetadataForPath(p) } if p == "gone"
    ));
    let mut agg = Aggregator::new(1);
    assert!(!agg.tainted());
    agg.process(msg);
    assert!(agg.tainted());
    let (sizes, errors) = agg.finish();
    // The root is still reported, with its accumulated total of 0.
    assert_eq!(sizes, vec![(0, 0)]);
    assert_eq!(errors.len(), 1);
}

#[test]
fn hardlinks_count_once() {
    // Two directory entries naming the same inode: its allocation is added
    // exactly once, however often it is reported.
    let mut agg = Aggregator::new(1);
    let meta = file_meta(1024, 2, 7, 99);
    for path in ["a/link1", "a/link2"] {
        let (msg, _) = visit_entry(String::from(path), 0, Some(meta), FilesizeType::DiskUsage);
        agg.process(msg);
    }
    let (sizes, errors) = agg.finish();
    assert!(errors.is_empty());
    assert_eq!(sizes, vec![(0, 2 * BLOCK_SIZE)]);
}

#[test]
fn hardlinks_count_once_across_roots() {
    // The first root to report a shared inode gets its size; the other root
    // accumulates nothing and reports a final total of 0.
    let mut agg = Aggregator::new(2);
    let meta = file_meta(600, 2, 7, 99);
    let (first, _) = visit_entry(String::from("a/f"), 0, Some(meta), FilesizeType::ApparentSize);
    let (second, _) = visit_entry(String::from("b/f"), 1, Some(meta), FilesizeType::ApparentSize);
    agg.process(first);
    agg.process(second);
    agg.process(Message::FinishedEntry(1));
    agg.process(Message::FinishedEntry(0));
    let (sizes, errors) = agg.finish();
    assert!(errors.is_empty());
    assert_eq!(sizes, vec![(0, 600), (1, 0)]);
}

#[test]
fn apparent_size_total_is_logical_size() {
    // No hard links: the apparent-size total is exactly the sum of logical
    // lengths.
    let mut agg = Aggregator::new(1);
    let lens = [10u64, 20, 30, 0, 5];
    for (k, len) in lens.iter().enumerate() {
        let meta = file_meta(*len, 1, 1, 100 + k as u64);
        let (msg, _) = visit_entry(format!("f{}", k), 0, Some(meta), FilesizeType::ApparentSize);
        agg.process(msg);
    }
    let (sizes, errors) = agg.finish();
    assert!(errors.is_empty());
    assert_eq!(sizes, vec![(0, 65)]);
}

#[test]
fn disk_usage_counts_blocks() {
    let meta = file_meta(1, 1, 1, 1);
    assert_eq!(meta.blocks, 1);
    assert_eq!(FilesizeType::DiskUsage.size(&meta), BLOCK_SIZE);
    assert_eq!(FilesizeType::ApparentSize.size(&meta), 1);
    let large = file_meta(512 * 3 + 1, 1, 1, 2);
    assert_eq!(FilesizeType::DiskUsage.size(&large), 4 * BLOCK_SIZE);
    assert_eq!(FilesizeType::ApparentSize.size(&large), 1537);
}

#[test]
fn unique_id_only_for_multilink_files() {
    let linked = file_meta(5, 2, 11, 22);
    assert_eq!(generate_unique_id(&linked), Some(UniqueID { device: 11, inode: 22 }));
    let single = file_meta(5, 1, 11, 22);
    assert_eq!(generate_unique_id(&single), None);
    let dir = dir_meta(4096, 5);
    assert_eq!(generate_unique_id(&dir), None);
}

#[test]
fn entries_without_identity_always_count() {
    // The same (device, inode) reported twice without an identity is added
    // both times: deduplication applies only to present identities.
    let mut agg = Aggregator::new(1);
    let meta = file_meta(40, 1, 3, 4);
    for path in ["x", "y"] {
        let (msg, _) = visit_entry(String::from(path), 0, Some(meta), FilesizeType::ApparentSize);
        agg.process(msg);
    }
    let (sizes, _) = agg.finish();
    assert_eq!(sizes, vec![(0, 80)]);
}

#[test]
fn directories_are_recursed_into() {
    let (_, recurse) = visit_entry(String::from("d"), 0, Some(dir_meta(4096, 8)), FilesizeType::DiskUsage);
    assert!(recurse);
    let (_, flat) = visit_entry(String::from("f"), 0, Some(file_meta(1, 1, 1, 9)), FilesizeType::DiskUsage);
    assert!(!flat);
}

#[test]
fn finished_root_total_is_reportable() {
    let mut agg = Aggregator::new(2);
    assert_eq!(agg.root_count(), 2);
    assert_eq!(agg.total_of(0), 0);
    let (msg, _) = visit_entry(String::from("a"), 0, Some(file_meta(123, 1, 1, 10)), FilesizeType::ApparentSize);
    agg.process(msg);
    agg.process(Message::FinishedEntry(0));
    assert_eq!(agg.total_of(0), 123);
    // A root with nothing counted still owns a reportable total: 0.
    assert_eq!(agg.total_of(1), 0);
}

#[test]
fn sort_results_ascending_by_size() {
    let mut results = vec![(0, 500u64), (1, 20), (2, 20), (3, 999), (4, 0)];
    sort_by_size(&mut results);
    let sizes: Vec<u64> = results.iter().map(|p| p.1).collect();
    assert_eq!(sizes, vec![0, 20, 20, 500, 999]);
    let mut roots: Vec<usize> = results.iter().map(|p| p.0).collect();
    roots.sort();
    assert_eq!(roots, vec![0, 1, 2, 3, 4]);
}

#[test]
fn grand_total_sums_roots() {
    let results = vec![(0, 100u64), (1, 200), (2, 300)];
    assert_eq!(grand_total(&results), Some(600));
    let empty: Vec<(usize, u64)> = vec![];
    assert_eq!(grand_total(&empty), Some(0));
}

#[test]
fn grand_total_reports_overflow() {
    let results = vec![(0, u64::MAX), (1, 1)];
    assert_eq!(grand_total(&results), None);
}

#[test]
fn aggregator_rejects_what_would_overflow() {
    let mut agg = Aggregator::new(1);
    let huge = Message::SizeEntry(None, 0, u64::MAX);
    assert!(agg.accepts(&huge));
    agg.process(huge);
    assert!(!agg.accepts(&Message::SizeEntry(None, 0, 1)));
    // A duplicate identity adds nothing, so it is always acceptable.
    let id = Some(UniqueID { device: 1, inode: 1 });
    let mut other = Aggregator::new(1);
    other.process(Message::SizeEntry(id, 0, u64::MAX));
    assert!(other.accepts(&Message::SizeEntry(id, 0, 1)));
    // A message for a root this scan does not have is refused.
    assert!(!other.accepts(&Message::SizeEntry(None, 1, 1)));
}

#[test]
fn scan_twice_same_totals() {
    // The aggregation is a function of the message stream alone: replaying
    // an identical stream yields bytewise identical totals.
    let build = || {
        let mut agg = Aggregator::new(2);
        let shared = file_meta(256, 3, 5, 77);
        for (root, path) in [(0usize, "a/one"), (1, "b/one"), (0, "a/two")] {
            let (msg, _) = visit_entry(String::from(path), root, Some(shared), FilesizeType::ApparentSize);
            agg.process(msg);
        }
        let (msg, _) = visit_entry(String::from("plain"), 1, Some(file_meta(9, 1, 5, 78)), FilesizeType::ApparentSize);
        agg.process(msg);
        agg.finish()
    };
    let (sizes_a, errors_a) = build();
    let (sizes_b, errors_b) = build();
    assert_eq!(sizes_a, sizes_b);
    assert_eq!(errors_a.len(), errors_b.len());
}

#[test]
fn roots_without_shared_inodes_are_independent() {
    // Scanning {A, B} together gives A the same total as scanning A alone,
    // when the two subtrees share no inode.
    let a_meta = file_meta(300, 2, 1, 1);
    let b_meta = file_meta(400, 2, 1, 2);
    let mut combined = Aggregator::new(2);
    let (a_msg, _) = visit_entry(String::from("a/f"), 0, Some(a_meta), FilesizeType::ApparentSize);
    let (b_msg, _) = visit_entry(String::from("b/f"), 1, Some(b_meta), FilesizeType::ApparentSize);
    combined.process(b_msg.clone());
    combined.process(a_msg.clone());
    let (combined_sizes, _) = combined.finish();

    let mut alone = Aggregator::new(1);
    let (alone_msg, _) = visit_entry(String::from("a/f"), 0, Some(a_meta), FilesizeType::ApparentSize);
    alone.process(alone_msg);
    let (alone_sizes, _) = alone.finish();

    assert_eq!(combined_sizes, vec![(0, 300), (1, 400)]);
    assert_eq!(alone_sizes, vec![(0, 300)]);
}

#[test]
fn shared_inodes_bound_the_combined_scan() {
    // When two roots do share an inode, the combined scan's sum is at most
    // the sum of the two separate scans.
    let shared = file_meta(1000, 2, 9, 9);
    let scan_alone = |root_path: &str| {
        let mut agg = Aggregator::new(1);
        let (msg, _) = visit_entry(String::from(root_path), 0, Some(shared), FilesizeType::ApparentSize);
        agg.process(msg);
        let (sizes, _) = agg.finish();
        sizes.iter().map(|p| p.1).sum::<u64>()
    };
    let separate_sum = scan_alone("a/f") + scan_alone("b/f");

    let mut combined = Aggregator::new(2);
    let (a_msg, _) = visit_entry(String::from("a/f"), 0, Some(shared), FilesizeType::ApparentSize);
    let (b_msg, _) = visit_entry(String::from("b/f"), 1, Some(shared), FilesizeType::ApparentSize);
    combined.process(a_msg);
    combined.process(b_msg);
    let (sizes, _) = combined.finish();
    let combined_sum: u64 = sizes.iter().map(|p| p.1).sum();

    assert!(combined_sum <= separate_sum);
    assert_eq!(combined_sum, 1000);
    assert_eq!(separate_sum, 2000);
}

#[test]
fn walk_keeps_its_configuration() {
    let walk = Walk::new(vec![String::from("."), String::from("/tmp")], 12, FilesizeType::DiskUsage);
    assert_eq!(walk.root_directories.len(), 2);
    assert_eq!(walk.num_threads, 12);
    assert_eq!(walk.filesize_type, FilesizeType::DiskUsage);
}
