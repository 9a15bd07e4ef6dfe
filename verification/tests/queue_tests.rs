use rand::SeedableRng;
use relaxation_analysis::{
    sample, ConfigError, DChoiceQueue, DRa, Heuristic, Partial, QueueArg, QueueConfig, Sampling,
    StrictQueue, SubQueue,
};

#[test]
fn shard_accounting() {
    let mut sq: SubQueue<usize> = SubQueue::new();
    sq.enqueue(1);
    sq.enqueue(2);
    sq.enqueue(3);
    assert_eq!(sq.dequeue(), Some(1));
    assert_eq!(sq.len(), 2);
    assert_eq!(sq.tail - sq.head, 2);
    assert_eq!(sq.tail, 3);
    assert_eq!(sq.head, 1);
    assert_eq!(sq.dequeue(), Some(2));
    assert_eq!(sq.dequeue(), Some(3));
    assert_eq!(sq.dequeue(), None);
    assert_eq!(sq.len(), 0);
    assert_eq!(sq.tail - sq.head, 0);
}

#[test]
fn partial_accounting() {
    let mut p: Partial<usize> = Partial::new();
    p.enqueue(9);
    p.enqueue(10);
    assert_eq!(p.len(), 2);
    assert_eq!(p.dequeue(), Some(9));
    assert_eq!(p.tail - p.head, 1);
    assert_eq!(p.len(), 1);
}

#[test]
fn invalid_configurations_are_rejected() {
    assert!(matches!(
        DChoiceQueue::<usize>::new(0, 1, false, false, false, 0),
        Err(ConfigError::ZeroShards)
    ));
    assert!(matches!(
        DChoiceQueue::<usize>::new(3, 0, false, false, false, 0),
        Err(ConfigError::InvalidSampleCount)
    ));
    assert!(matches!(
        DChoiceQueue::<usize>::new(3, 4, true, false, false, 0),
        Err(ConfigError::InvalidSampleCount)
    ));
    assert!(DChoiceQueue::<usize>::new(3, 3, true, true, true, 0).is_ok());
    assert!(matches!(
        DRa::<usize>::new(0, 0, false, false, false, 0),
        Err(ConfigError::ZeroShards)
    ));
    assert!(matches!(
        DRa::<usize>::new(2, 3, false, true, true, 0),
        Err(ConfigError::InvalidSampleCount)
    ));
    assert!(DRa::<usize>::new(3, 1, false, false, false, 0).is_ok());
}

#[test]
fn queue_arg_builds_a_d_ra() {
    let arg = QueueArg {
        partials: 3,
        config: QueueConfig {
            sample_nbr: 2,
            heuristic: Heuristic::Operation,
            sampling: Sampling::Uniques,
        },
    };
    let mut q = arg.init(5).unwrap();
    q.enqueue(0usize);
    assert_eq!(q.dequeue(), Some(0));
    assert_eq!(q.dequeue(), None);

    let bad = QueueConfig {
        sample_nbr: 5,
        heuristic: Heuristic::Length,
        sampling: Sampling::Naive,
    };
    assert!(bad.init(2, 0).is_err());
}

#[test]
fn single_shard_dequeues_in_enqueue_order() {
    let mut q = DChoiceQueue::new(1, 1, true, true, true, 9).unwrap();
    q.enqueue(10usize);
    q.enqueue(11);
    q.enqueue(12);
    assert_eq!(q.dequeue(), Some(10));
    assert_eq!(q.dequeue(), Some(11));
    assert_eq!(q.dequeue(), Some(12));
    assert_eq!(q.dequeue(), None);

    let mut p = DRa::new(1, 1, false, false, true, 1).unwrap();
    p.enqueue(5usize);
    p.enqueue(6);
    assert_eq!(p.dequeue(), Some(5));
    assert_eq!(p.dequeue(), Some(6));
    assert_eq!(p.dequeue(), None);
}

#[test]
fn dequeue_with_info_reports_serving_shard() {
    // on a single shard every answer is served (or attempted) at index 0
    let mut q = DChoiceQueue::new(1, 1, false, true, false, 0).unwrap();
    q.enqueue(7usize);
    q.enqueue(8);
    assert_eq!(q.dequeue_with_info(), (Some(7), 0));
    assert_eq!(q.dequeue_with_info(), (Some(8), 0));
    assert_eq!(q.dequeue_with_info(), (None, 0));
    assert_eq!(q.nbr_subqueues(), 1);
    assert_eq!(q.subqueue_enqueue_counts(), vec![2]);
    assert_eq!(q.subqueue_dequeue_counts(), vec![2]);

    // with several shards, the reported index is the shard that held the
    // single item
    let mut q2 = DChoiceQueue::new(3, 3, true, true, true, 5).unwrap();
    q2.enqueue(9usize);
    let counts = q2.subqueue_enqueue_counts();
    let (item, shard) = q2.dequeue_with_info();
    assert_eq!(item, Some(9));
    assert!(shard < 3);
    assert_eq!(counts[shard], 1);
}

#[test]
fn full_unique_sample_covers_every_shard() {
    let mut rng = rand::rngs::StdRng::seed_from_u64(5);
    for _ in 0..20 {
        let mut s = sample(&mut rng, 5, 5, true);
        s.sort();
        assert_eq!(s, vec![0, 1, 2, 3, 4]);
    }
}

#[test]
fn unique_samples_are_distinct_and_in_range() {
    let mut rng = rand::rngs::StdRng::seed_from_u64(77);
    for _ in 0..50 {
        let s = sample(&mut rng, 6, 3, true);
        assert_eq!(s.len(), 3);
        for i in 0..s.len() {
            assert!(s[i] < 6);
            for j in 0..i {
                assert_ne!(s[i], s[j]);
            }
        }
    }
    for _ in 0..50 {
        let s = sample(&mut rng, 4, 2, false);
        assert_eq!(s.len(), 2);
        assert!(s[0] < 4 && s[1] < 4);
    }
    // with a single shard every draw must land on it
    for _ in 0..10 {
        let s = sample(&mut rng, 1, 1, false);
        assert_eq!(s, vec![0]);
    }
}

#[test]
fn fallback_toggle_decides_empty_result() {
    // one item enqueued into shard 0 only, then a dequeue whose sampled
    // shard is empty: without the fallback scan the queue reports empty
    // (rank error = live count); with it, the item from shard 0 is served
    // (rank error = 0).
    let mut found = false;
    for seed in 0..10_000u64 {
        let mut q = DChoiceQueue::new(3, 1, false, true, false, seed).unwrap();
        q.enqueue(0usize);
        if q.subqueue_enqueue_counts() != vec![1, 0, 0] {
            continue;
        }
        let r = q.dequeue();
        if r.is_none() {
            let mut strict = StrictQueue::new();
            strict.enqueue(0);
            assert_eq!(strict.len(), 1);

            let mut q2 = DChoiceQueue::new(3, 1, false, true, true, seed).unwrap();
            q2.enqueue(0usize);
            assert_eq!(q2.dequeue(), Some(0));
            assert_eq!(strict.relaxed_dequeue(0), 0);
            found = true;
            break;
        }
    }
    assert!(found);
}
