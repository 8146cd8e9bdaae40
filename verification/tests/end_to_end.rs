use p2p_sys::chunk_name::chunk_file_name;
use p2p_sys::chunker::{chunk_metadata, split_into_chunks, CHUNK_SIZE};
use p2p_sys::download::{ChunkOutcome, Completion};
use p2p_sys::node::{Incoming, MessageOutcome, PeerNode};
use p2p_sys::transfer_log::Timestamp;

#[test]
fn an_uploaded_file_is_put_back_together_by_a_downloader() {
    let data: Vec<u8> = (0..(2 * CHUNK_SIZE + 12345)).map(|x| (x * 7 % 256) as u8).collect();
    let meta = chunk_metadata(&data);
    let parts = split_into_chunks(&data, CHUNK_SIZE);
    assert_eq!(meta.len(), parts.len());

    let mut sender = PeerNode::new("pw", "alice");
    sender.scores.insert_if_absent("bob", 500);
    let mut receiver = PeerNode::new("pw", "bob");
    receiver.download_requested("big.bin");

    let total = parts.len();
    let mut messages = Vec::new();
    for (i, part) in parts.into_iter().enumerate() {
        let name = chunk_file_name("big.bin", i + 1, total);
        messages.push(sender.chunk_upload_message(name, part).unwrap());
    }
    messages.reverse();
    let now = Timestamp { secs: 0, nanos: 0 };
    let mut assembled = None;
    for (k, m) in messages.into_iter().enumerate() {
        assert_eq!(m.receivers, vec!["bob".to_string()]);
        match receiver.handle_received_message("alice", Incoming::File(m), now) {
            MessageOutcome::ChunkStored { download: Some((name, _, outcome)), .. } => {
                assert_eq!(name, "big.bin");
                match outcome {
                    ChunkOutcome::Recorded { completion: Completion::Complete(file), .. } => {
                        assert_eq!(k, total - 1);
                        assembled = Some(file);
                    }
                    ChunkOutcome::Recorded { completion: Completion::Pending, received, .. } => {
                        assert_eq!(received, k + 1);
                    }
                    _ => panic!("unexpected outcome"),
                }
            }
            _ => panic!("expected a stored chunk"),
        }
    }
    assert_eq!(assembled, Some(data));
    assert_eq!(receiver.scores.score_of("alice"), Some(50 * total as i64));
}
