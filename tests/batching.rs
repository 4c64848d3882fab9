use cutaway::batching::{
    batch_records, effective_total, expected_batch_count, vertex_colour, BatchProducer,
    LoadProgress, PollOutcome,
};

fn lengths(batches: &Vec<Vec<u32>>) -> Vec<usize> {
    batches.iter().map(|b| b.len()).collect()
}

#[test]
fn million_points_with_one_past_the_limit() {
    let n = effective_total(1_000_000, 0);
    assert_eq!(n, 1_000_000);
    let records: Vec<u32> = (0..1_000_001u32).collect();
    let batches = batch_records(&records, n, 500_000);
    assert_eq!(lengths(&batches), vec![500_000, 500_000, 1]);
    assert_eq!(batches[0][0], 0);
    assert_eq!(batches[1][0], 500_000);
    assert_eq!(batches[2][0], 1_000_000);
}

#[test]
fn million_points_source_ends_at_declared_total() {
    let records: Vec<u32> = (0..1_000_000u32).collect();
    let batches = batch_records(&records, effective_total(1_000_000, 0), 500_000);
    assert_eq!(lengths(&batches), vec![500_000, 500_000, 0]);
}

#[test]
fn limit_cut_reads_one_past_the_limit() {
    let records: Vec<u32> = (0..10).collect();
    let batches = batch_records(&records, 4, 2);
    assert_eq!(batches, vec![vec![0, 1], vec![2, 3], vec![4]]);
    let batches = batch_records(&records, 5, 2);
    assert_eq!(batches, vec![vec![0, 1], vec![2, 3], vec![4, 5], vec![]]);
}

#[test]
fn short_source_delivers_everything() {
    let records: Vec<u32> = vec![7, 8, 9];
    let batches = batch_records(&records, 10, 2);
    assert_eq!(batches, vec![vec![7, 8], vec![9]]);
    let empty: Vec<u32> = vec![];
    assert_eq!(batch_records(&empty, 10, 2), vec![Vec::<u32>::new()]);
}

#[test]
fn batch_count_and_concatenation_on_small_fixtures() {
    for total in 0..12u32 {
        for limit in 0..12u64 {
            for b in 1..5u64 {
                let records: Vec<u32> = (0..total).collect();
                let batches = batch_records(&records, limit, b);
                let m = std::cmp::min(total as u64, limit + 1);
                assert_eq!(batches.len() as u64, (m + b) / b);
                let flat: Vec<u32> = batches.concat();
                assert_eq!(flat, (0..m as u32).collect::<Vec<u32>>());
            }
        }
    }
}

#[test]
fn producer_steps() {
    let mut p: BatchProducer<u32> = BatchProducer::new(2, 2);
    assert!(p.push(10).is_empty());
    assert_eq!(p.push(11), vec![vec![10, 11]]);
    assert!(!p.is_stopped());
    assert_eq!(p.push(12), vec![vec![12]]);
    assert!(p.is_stopped());
    assert_eq!(p.points_read(), 3);

    let mut q: BatchProducer<u32> = BatchProducer::new(1, 2);
    assert!(q.push(1).is_empty());
    assert_eq!(q.push(2), vec![vec![1, 2], vec![]]);
    assert!(q.is_stopped());

    let mut r: BatchProducer<u32> = BatchProducer::new(100, 3);
    r.push(5);
    assert_eq!(r.finish(), vec![5]);
    assert!(r.is_stopped());
}

#[test]
fn totals_and_progress() {
    assert_eq!(effective_total(1_000, 0), 1_000);
    assert_eq!(effective_total(1_000, 20), 20);
    assert_eq!(expected_batch_count(1_000_000, 500_000), 3);
    assert_eq!(expected_batch_count(0, 500_000), 1);

    let mut p = LoadProgress::start(1_000_000, 500_000);
    assert!(p.loading);
    assert_eq!(p.expected_batches, 3);
    p.on_poll(PollOutcome::Batch);
    p.on_poll(PollOutcome::Empty);
    p.on_poll(PollOutcome::Batch);
    assert_eq!(p.batches_loaded, 2);
    assert!(p.loading);
    p.on_poll(PollOutcome::Disconnected);
    assert!(!p.loading);
    assert_eq!(p.batches_loaded, 2);
    assert!(!LoadProgress::idle().loading);
}

#[test]
fn vertex_colours() {
    assert_eq!(vertex_colour(Some((65535, 256, 255))), (255, 1, 0));
    assert_eq!(vertex_colour(Some((0x1234, 0x8000, 0))), (0x12, 0x80, 0));
    assert_eq!(vertex_colour(None), (255, 255, 255));
}
