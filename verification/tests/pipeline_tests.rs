use updater_core::pipeline::WritePipeline;

#[test]
fn order_is_preserved_under_saturation() {
    // Bound of 2, five chunks, interleaved slow draining: the
    // destination must equal sequential writes of the same chunks.
    let chunks: Vec<Vec<u8>> = vec![
        vec![1, 2],
        vec![3],
        vec![4, 5, 6],
        vec![],
        vec![7, 8, 9, 10],
    ];
    let mut p = WritePipeline::new(2);
    for c in &chunks {
        let mut offered = c.clone();
        loop {
            match p.try_enqueue(offered) {
                None => break,
                Some(back) => {
                    // Backpressure: the queue is full; the worker
                    // drains one chunk, then the caller retries.
                    p.drain_one();
                    offered = back;
                },
            }
        }
    }
    p.finish();
    let mut expected = Vec::new();
    for c in &chunks {
        expected.extend_from_slice(c);
    }
    assert_eq!(p.sink_bytes(), &expected);
    assert_eq!(p.pending_count(), 0);
}

#[test]
fn full_queue_refuses_and_returns_the_chunk() {
    let mut p = WritePipeline::new(1);
    assert!(p.try_enqueue(vec![1]).is_none());
    let back = p.try_enqueue(vec![2]);
    assert_eq!(back, Some(vec![2]));
    p.finish();
    assert_eq!(p.sink_bytes(), &vec![1]);
}

#[test]
fn drain_on_empty_queue_changes_nothing() {
    let mut p = WritePipeline::new(3);
    p.drain_one();
    assert_eq!(p.pending_count(), 0);
    assert!(p.sink_bytes().is_empty());
}

#[test]
fn finish_flushes_everything_pending() {
    let mut p = WritePipeline::new(4);
    assert!(p.try_enqueue(vec![9]).is_none());
    assert!(p.try_enqueue(vec![8, 7]).is_none());
    p.finish();
    assert_eq!(p.sink_bytes(), &vec![9, 8, 7]);
}
