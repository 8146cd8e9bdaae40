use p2p_sys::download::{ChunkOutcome, Completion, Downloads};

fn complete(o: ChunkOutcome) -> Option<Vec<u8>> {
    match o {
        ChunkOutcome::Recorded { completion: Completion::Complete(f), .. } => Some(f),
        _ => None,
    }
}

#[test]
fn chunk_for_a_file_not_asked_for_is_ignored() {
    let mut d = Downloads::new();
    assert!(matches!(d.record_chunk("f", 1, 1, vec![1]), ChunkOutcome::NotRequested));
    assert!(!d.is_downloading("f"));
}

#[test]
fn chunks_in_any_order_complete_the_file() {
    let mut d = Downloads::new();
    d.start_download("f");
    let o = d.record_chunk("f", 3, 3, vec![7, 8]);
    assert!(matches!(
        o,
        ChunkOutcome::Recorded { new_chunk: true, received: 1, total: 3, completion: Completion::Pending }
    ));
    let o = d.record_chunk("f", 1, 3, vec![1, 2, 3]);
    assert!(matches!(o, ChunkOutcome::Recorded { received: 2, total: 3, .. }));
    assert_eq!(d.progress("f"), Some((2, 3)));
    let o = d.record_chunk("f", 2, 3, vec![4, 5, 6]);
    assert_eq!(complete(o), Some(vec![1, 2, 3, 4, 5, 6, 7, 8]));
    assert!(!d.is_downloading("f"));
}

#[test]
fn a_repeated_chunk_is_not_counted_twice() {
    let mut d = Downloads::new();
    d.start_download("f");
    d.record_chunk("f", 1, 2, vec![1]);
    let o = d.record_chunk("f", 1, 2, vec![9]);
    assert!(matches!(
        o,
        ChunkOutcome::Recorded { new_chunk: false, received: 1, total: 2, completion: Completion::Pending }
    ));
    let o = d.record_chunk("f", 2, 2, vec![2]);
    assert_eq!(complete(o), Some(vec![1, 2]));
}

#[test]
fn enough_chunks_but_not_the_right_ones_wait() {
    let mut d = Downloads::new();
    d.start_download("f");
    d.record_chunk("f", 1, 2, vec![1]);
    let o = d.record_chunk("f", 5, 2, vec![5]);
    assert!(matches!(
        o,
        ChunkOutcome::Recorded { received: 2, total: 2, completion: Completion::Missing, .. }
    ));
    assert!(d.is_downloading("f"));
}

#[test]
fn metadata_sets_the_number_of_chunks() {
    let mut d = Downloads::new();
    d.start_download("f");
    d.set_total_chunks("f", 4);
    assert_eq!(d.progress("f"), Some((0, 4)));
    let o = d.record_chunk("f", 1, 1, vec![1]);
    assert!(matches!(o, ChunkOutcome::Recorded { received: 1, total: 4, .. }));
    d.set_total_chunks("g", 4);
    assert!(!d.is_downloading("g"));
}

#[test]
fn asking_again_starts_afresh() {
    let mut d = Downloads::new();
    d.start_download("f");
    d.record_chunk("f", 1, 3, vec![1]);
    d.start_download("f");
    assert_eq!(d.progress("f"), Some((0, 0)));
}
