use relaxation_analysis::{
    analyze_extra, analyze_simple, sort_i64s, sort_usizes, sorted_enq_deq_diffs,
    sorted_rank_errors, DChoiceQueue, DRa, ErrorTag, StrictQueue,
};

#[test]
fn rank_error_zero_iff_front() {
    let mut strict = StrictQueue::new();
    strict.enqueue(0);
    strict.enqueue(1);
    strict.enqueue(2);
    // one alive entry (0) precedes it, so its rank error is 1
    assert_eq!(strict.relaxed_dequeue(1), 1);
    // 0 is the front of the reference order
    assert_eq!(strict.relaxed_dequeue(0), 0);
    // tombstone compaction made 2 the front
    assert_eq!(strict.relaxed_dequeue(2), 0);
    assert_eq!(strict.len(), 0);
}

#[test]
fn tracker_counts_alive_entries_before_the_match() {
    let mut strict = StrictQueue::new();
    for id in 0..5 {
        strict.enqueue(id);
    }
    assert_eq!(strict.len(), 5);
    assert_eq!(strict.relaxed_dequeue(3), 3);
    assert_eq!(strict.relaxed_dequeue(4), 3);
    assert_eq!(strict.len(), 3);
    assert_eq!(strict.relaxed_dequeue(0), 0);
    assert_eq!(strict.relaxed_dequeue(1), 0);
    assert_eq!(strict.relaxed_dequeue(2), 0);
    assert_eq!(strict.len(), 0);
}

#[test]
fn conservation_of_items() {
    let ops = vec![true, false, true, true, false, true, false, false, true, false];
    let mut q = DChoiceQueue::new(3, 2, true, false, true, 11).unwrap();
    let tags = analyze_extra(&mut q, 5, &ops);
    let enqueued = 5 + ops.iter().filter(|b| **b).count();
    let successes = tags
        .iter()
        .filter(|t| matches!(t, ErrorTag::ItemDequeue { .. }))
        .count();
    let tails: usize = q.subqueue_enqueue_counts().iter().sum();
    let heads: usize = q.subqueue_dequeue_counts().iter().sum();
    assert_eq!(enqueued, tails);
    assert_eq!(enqueued, successes + (tails - heads));

    // every dequeued item was enqueued in this run, and returned only once
    let mut ids: Vec<usize> = tags
        .iter()
        .filter_map(|t| match t {
            ErrorTag::ItemDequeue { enq_nbr, .. } => Some(*enq_nbr),
            ErrorTag::EmptyDequeue { .. } => None,
        })
        .collect();
    ids.sort();
    for w in ids.windows(2) {
        assert!(w[0] < w[1]);
    }
    for id in &ids {
        assert!(*id < enqueued);
    }
}

#[test]
fn single_shard_is_strict_fifo() {
    let ops = vec![true, false, true, true, false, false, false];
    let mut q = DChoiceQueue::new(1, 1, false, false, false, 3).unwrap();
    let ranks = analyze_simple(&mut q, 2, &ops);
    assert_eq!(ranks.len(), 4);
    for r in &ranks {
        assert_eq!(*r, 0);
    }
}

#[test]
fn scenario_balanced_enqueues_then_dequeues() {
    let ops = vec![true, true, true, true, false, false, false, false];
    let mut q = DChoiceQueue::new(4, 2, true, true, true, 42).unwrap();
    let tags = analyze_extra(&mut q, 0, &ops);
    assert_eq!(tags.len(), 4);
    let mut sum = 0usize;
    for (k, t) in tags.iter().enumerate() {
        // no empty dequeue occurs: the fallback scan finds the items
        assert!(matches!(t, ErrorTag::ItemDequeue { .. }));
        assert_eq!(t.deq_nbr(), k + 1);
        sum += t.rank_error();
    }
    assert!(sum <= 12);

    // exactly reproducible for a fixed seed
    let mut q2 = DChoiceQueue::new(4, 2, true, true, true, 42).unwrap();
    let tags2 = analyze_extra(&mut q2, 0, &ops);
    assert_eq!(tags, tags2);
}

#[test]
fn scenario_prefill_only_dequeues() {
    let ops = vec![false; 5];
    let mut q = DChoiceQueue::new(2, 1, false, true, true, 7).unwrap();
    let ranks = analyze_simple(&mut q, 10, &ops);
    assert_eq!(ranks.len(), 5);
    for r in &ranks {
        assert!(*r <= 10);
    }
}

#[test]
fn full_sampling_concentrates_rank_errors() {
    let mut ops = Vec::new();
    for _ in 0..10 {
        ops.push(true);
        ops.push(false);
    }
    let mut q = DChoiceQueue::new(4, 4, true, true, true, 1).unwrap();
    let ranks = analyze_simple(&mut q, 4, &ops);
    assert_eq!(ranks.len(), 10);
    for r in &ranks {
        assert!(*r <= 4);
    }
}

#[test]
fn reproducible_for_fixed_seed() {
    let ops = vec![true, false, false, true, true, false];
    let mut a = DRa::new(3, 2, true, true, true, 99).unwrap();
    let mut b = DRa::new(3, 2, true, true, true, 99).unwrap();
    let ra = analyze_simple(&mut a, 2, &ops);
    let rb = analyze_simple(&mut b, 2, &ops);
    assert_eq!(ra, rb);
}

#[test]
fn empty_script_gives_no_records() {
    let ops: Vec<bool> = Vec::new();
    let mut q = DChoiceQueue::new(2, 1, false, true, true, 0).unwrap();
    let ranks = analyze_simple(&mut q, 0, &ops);
    assert!(ranks.is_empty());

    let mut q2 = DChoiceQueue::new(2, 2, true, true, true, 0).unwrap();
    let tags = analyze_extra(&mut q2, 3, &ops);
    assert!(tags.is_empty());
    let tails: usize = q2.subqueue_enqueue_counts().iter().sum();
    assert_eq!(tails, 3);
}

#[test]
fn error_tag_accessors() {
    let a = ErrorTag::ItemDequeue {
        rank_error: 3,
        enq_nbr: 7,
        deq_nbr: 2,
        sub_nbr: 1,
    };
    let b = ErrorTag::EmptyDequeue {
        rank_error: 5,
        deq_nbr: 4,
        sub_nbr: 0,
    };
    assert_eq!(a.rank_error(), 3);
    assert_eq!(a.deq_nbr(), 2);
    assert_eq!(a.sub_nbr(), 1);
    assert_eq!(b.rank_error(), 5);
    assert_eq!(b.deq_nbr(), 4);
    assert_eq!(b.sub_nbr(), 0);
}

#[test]
fn sorting_distributions() {
    let sorted = sort_usizes(&vec![3, 1, 2, 1]);
    assert_eq!(sorted, vec![1, 1, 2, 3]);
    let sorted2 = sort_i64s(&vec![5, -2, 0]);
    assert_eq!(sorted2, vec![-2, 0, 5]);

    let tags = vec![
        ErrorTag::ItemDequeue {
            rank_error: 2,
            enq_nbr: 5,
            deq_nbr: 2,
            sub_nbr: 1,
        },
        ErrorTag::EmptyDequeue {
            rank_error: 9,
            deq_nbr: 3,
            sub_nbr: 0,
        },
        ErrorTag::ItemDequeue {
            rank_error: 0,
            enq_nbr: 1,
            deq_nbr: 4,
            sub_nbr: 2,
        },
    ];
    assert_eq!(sorted_rank_errors(&tags), vec![0, 2, 9]);
    assert_eq!(sorted_enq_deq_diffs(&tags), vec![-3, 3]);
}

#[test]
fn empty_dequeue_scores_outstanding_items() {
    // with two shards, one item, no fallback scan and a single sampled
    // shard, a dequeue that samples the wrong shard reports empty and is
    // scored with the full live count, one
    let ops = vec![true, false];
    let mut found = false;
    for seed in 0..10_000u64 {
        let mut q = DChoiceQueue::new(2, 1, false, true, false, seed).unwrap();
        let tags = analyze_extra(&mut q, 0, &ops);
        assert_eq!(tags.len(), 1);
        match tags[0] {
            ErrorTag::EmptyDequeue { rank_error, .. } => {
                assert_eq!(rank_error, 1);
                found = true;
            }
            ErrorTag::ItemDequeue { rank_error, .. } => {
                assert_eq!(rank_error, 0);
            }
        }
        if found {
            break;
        }
    }
    assert!(found);
}

#[test]
fn empty_dequeues_score_the_live_count() {
    // a queue without the fallback scan on a single shard reports empty
    // exactly when the shard is empty, and the record carries the live
    // count, which is then zero
    let ops = vec![false, true, false, false];
    let mut q = DChoiceQueue::new(1, 1, false, true, false, 0).unwrap();
    let tags = analyze_extra(&mut q, 0, &ops);
    assert_eq!(tags.len(), 3);
    assert!(matches!(
        tags[0],
        ErrorTag::EmptyDequeue { rank_error: 0, deq_nbr: 1, .. }
    ));
    assert!(matches!(
        tags[1],
        ErrorTag::ItemDequeue { rank_error: 0, deq_nbr: 2, .. }
    ));
    assert!(matches!(
        tags[2],
        ErrorTag::EmptyDequeue { rank_error: 0, deq_nbr: 3, .. }
    ));
}
