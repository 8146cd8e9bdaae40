use p2p_sys::chunk_name::chunk_file_name;
use p2p_sys::commands::{parse_user_command, text_body, text_payload, UserCommand};
use p2p_sys::download::{ChunkOutcome, Completion};
use p2p_sys::node::{FileMessage, FileMetadataMessage, FileRequestMessage, Incoming, MessageOutcome, PeerNode};
use p2p_sys::transfer_log::{FileTransferLog, Timestamp};

const NOW: Timestamp = Timestamp { secs: 1_700_000_000, nanos: 5 };

fn chunk(name: &str, password: &str, data: &[u8], receivers: &[&str]) -> Incoming {
    Incoming::File(FileMessage {
        sender: "them".to_string(),
        password: password.to_string(),
        file_name: name.to_string(),
        data: data.to_vec(),
        receivers: receivers.iter().map(|r| r.to_string()).collect(),
    })
}

#[test]
fn commands_are_read_after_trimming() {
    assert!(matches!(parse_user_command("  @upload \n"), UserCommand::Upload));
    assert!(matches!(parse_user_command("@check_scores"), UserCommand::CheckScores));
    assert!(matches!(parse_user_command("\t@check_logs"), UserCommand::CheckLogs));
    match parse_user_command("@download   report.pdf extra ") {
        UserCommand::Download(name) => assert_eq!(name, "report.pdf"),
        _ => panic!("expected a download"),
    }
    match parse_user_command(" hello  world ") {
        UserCommand::Message(text) => assert_eq!(text, "hello  world"),
        _ => panic!("expected a message"),
    }
    match parse_user_command("@download ") {
        UserCommand::Message(text) => assert_eq!(text, "@download"),
        _ => panic!("expected a message"),
    }
    match parse_user_command("@upload now") {
        UserCommand::Message(text) => assert_eq!(text, "@upload now"),
        _ => panic!("expected a message"),
    }
}

#[test]
fn text_is_sent_after_the_password_and_read_back() {
    let sent = text_payload("secret", "hi there");
    assert_eq!(sent, "secret:hi there");
    assert_eq!(text_body(&sent, "secret"), Some("hi there".to_string()));
    assert_eq!(text_body("other:hi", "secret"), None);
}

#[test]
fn chunk_for_someone_else_changes_nothing() {
    let mut node = PeerNode::new("pw", "me");
    let out = node.handle_received_message("them", chunk("f(1-of-1)", "pw", b"x", &["you"]), NOW);
    assert!(matches!(out, MessageOutcome::ChunkNotForUs { .. }));
    assert_eq!(node.scores.len(), 0);
}

#[test]
fn chunk_with_wrong_password_lowers_the_sender() {
    let mut node = PeerNode::new("pw", "me");
    node.scores.insert_if_absent("them", 400);
    let out = node.handle_received_message("them", chunk("f(1-of-1)", "bad", b"x", &["me"]), NOW);
    assert!(matches!(out, MessageOutcome::ChunkRejected { score: 399 }));
}

#[test]
fn stored_chunk_completes_a_download_and_rewards_the_sender() {
    let mut node = PeerNode::new("pw", "me");
    node.download_requested("f.txt");
    let first = chunk_file_name("f.txt", 2, 2);
    let out = node.handle_received_message("them", chunk(&first, "pw", b"world", &["me"]), NOW);
    match out {
        MessageOutcome::ChunkStored { dir, path, data, download, score, log } => {
            assert_eq!(dir, "./me/");
            assert_eq!(path, "./me//f.txt(2-of-2)");
            assert_eq!(data, b"world".to_vec());
            assert_eq!(score, 50);
            assert_eq!(log.peer_id, "me");
            assert_eq!(log.file_name, "f.txt(2-of-2)");
            assert_eq!(log.timestamp.secs, NOW.secs);
            assert_eq!(log.password, "pw");
            let (name, out_path, o) = download.unwrap();
            assert_eq!(name, "f.txt");
            assert_eq!(out_path, "./me//f.txt");
            assert!(matches!(o, ChunkOutcome::Recorded { completion: Completion::Pending, .. }));
        }
        _ => panic!("expected a stored chunk"),
    }
    let second = chunk_file_name("f.txt", 1, 2);
    let out = node.handle_received_message("them", chunk(&second, "pw", b"hello ", &["me"]), NOW);
    match out {
        MessageOutcome::ChunkStored { download: Some((_, _, o)), score, .. } => {
            assert_eq!(score, 100);
            match o {
                ChunkOutcome::Recorded { completion: Completion::Complete(file), .. } => {
                    assert_eq!(file, b"hello world".to_vec())
                }
                _ => panic!("expected the file"),
            }
        }
        _ => panic!("expected a stored chunk"),
    }
    assert!(!node.downloads.is_downloading("f.txt"));
}

#[test]
fn stored_chunk_without_chunk_name_is_only_kept() {
    let mut node = PeerNode::new("pw", "me");
    let out = node.handle_received_message("them", chunk("loose.bin", "pw", b"x", &["me"]), NOW);
    assert!(matches!(out, MessageOutcome::ChunkStored { download: None, .. }));
}

#[test]
fn log_entries_with_the_password_are_kept() {
    let mut node = PeerNode::new("pw", "me");
    let entry = FileTransferLog {
        peer_id: "p".to_string(),
        file_name: "f".to_string(),
        timestamp: NOW,
        password: "pw".to_string(),
    };
    let out = node.handle_received_message("them", Incoming::Log(entry.clone()), NOW);
    assert!(matches!(out, MessageOutcome::LogRecorded { .. }));
    let bad = FileTransferLog { password: "no".to_string(), ..entry };
    let out = node.handle_received_message("them", Incoming::Log(bad), NOW);
    assert!(matches!(out, MessageOutcome::LogRejected));
    let all = node.transfer_logs();
    assert_eq!(all.len(), 1);
    assert_eq!(all[0].peer_id, "p");
}

#[test]
fn requests_and_metadata_with_the_password() {
    let mut node = PeerNode::new("pw", "me");
    let req = FileRequestMessage { sender: "x".into(), password: "pw".into(), file_name: "f".into() };
    match node.handle_received_message("them", Incoming::Request(req), NOW) {
        MessageOutcome::RequestAccepted { dir, file_name, requester } => {
            assert_eq!((dir.as_str(), file_name.as_str(), requester.as_str()), ("./me/", "f", "x"));
        }
        _ => panic!("expected an accepted request"),
    }
    let bad = FileRequestMessage { sender: "x".into(), password: "no".into(), file_name: "f".into() };
    assert!(matches!(
        node.handle_received_message("them", Incoming::Request(bad), NOW),
        MessageOutcome::RequestRejected
    ));
    node.download_requested("f");
    let meta = FileMetadataMessage {
        sender: "x".into(),
        password: "pw".into(),
        file_name: "f".into(),
        total_chunks: 6,
    };
    assert!(matches!(
        node.handle_received_message("them", Incoming::Metadata(meta), NOW),
        MessageOutcome::MetadataRecorded { applied: true, total_chunks: 6, .. }
    ));
    assert_eq!(node.downloads.progress("f"), Some((0, 6)));
}

#[test]
fn texts_need_the_password() {
    let mut node = PeerNode::new("pw", "me");
    match node.handle_received_message("them", Incoming::Text("pw:hello".into()), NOW) {
        MessageOutcome::TextAccepted { text } => assert_eq!(text, "hello"),
        _ => panic!("expected a text"),
    }
    assert!(matches!(
        node.handle_received_message("them", Incoming::Text("nope".into()), NOW),
        MessageOutcome::TextRejected
    ));
}

#[test]
fn answering_a_request_lists_the_chunks_in_order() {
    let node = PeerNode::new("pw", "me");
    let entries = vec!["f(2-of-2)".to_string(), "f(1-of-2)".to_string(), "g(1-of-1)".to_string()];
    let (meta, files) = node.answer_request(&entries, "f").unwrap();
    assert_eq!(meta.total_chunks, 2);
    assert_eq!(meta.sender, "me");
    assert_eq!(files, vec!["f(1-of-2)".to_string(), "f(2-of-2)".to_string()]);
    let reply = node.chunk_reply(files[0].clone(), vec![1, 2], "them");
    assert_eq!(reply.receivers, vec!["them".to_string()]);
    assert_eq!(reply.file_name, "f(1-of-2)");
    assert!(node.answer_request(&entries, "h").is_none());
}

#[test]
fn upload_goes_to_the_best_peers() {
    let mut node = PeerNode::new("pw", "me");
    assert!(node.chunk_upload_message("f(1-of-1)".into(), vec![1]).is_none());
    node.scores.insert_if_absent("a", 300);
    node.scores.insert_if_absent("b", 800);
    node.scores.insert_if_absent("c", 500);
    node.scores.insert_if_absent("d", 400);
    let m = node.chunk_upload_message("f(1-of-1)".into(), vec![1]).unwrap();
    assert_eq!(m.receivers.len(), 3);
    assert_eq!(&m.receivers[..2], &["b".to_string(), "c".to_string()]);
    assert_eq!(m.sender, "me");
    assert_eq!(m.password, "pw");
}

#[test]
fn discovery_and_decay_rounds() {
    let mut node = PeerNode::new("pw", "me");
    node.peer_discovered("a");
    let s = node.scores.score_of("a").unwrap();
    assert!((300..=800).contains(&s));
    node.decay_round(&vec!["a".to_string()]);
    assert_eq!(node.scores.score_of("a"), Some(s - 10));
    node.decay_round(&vec![]);
    assert_eq!(node.scores.score_of("a"), None);
}

#[test]
fn relayed_request_is_answered_to_its_sender() {
    let mut node = PeerNode::new("pw", "me");
    let req = FileRequestMessage { sender: "asker".into(), password: "pw".into(), file_name: "f".into() };
    match node.handle_received_message("relay", Incoming::Request(req), NOW) {
        MessageOutcome::RequestAccepted { requester, .. } => assert_eq!(requester, "asker"),
        _ => panic!("expected an accepted request"),
    }
}

#[test]
fn chunk_named_outside_the_directory_is_refused() {
    let mut node = PeerNode::new("pw", "me");
    node.download_requested("x");
    for name in ["../x", "a/b(1-of-1)", "..", ".", "/etc/x"] {
        match node.handle_received_message("them", chunk(name, "pw", b"x", &["me"]), NOW) {
            MessageOutcome::ChunkRefused { file_name } => assert_eq!(file_name, name),
            _ => panic!("expected a refused chunk"),
        }
    }
    assert_eq!(node.scores.score_of("them"), None);
    assert_eq!(node.downloads.progress("x"), Some((0, 0)));
    assert!(node.transfer_logs().is_empty());
}

#[test]
fn name_with_a_single_dot_is_stored() {
    let mut node = PeerNode::new("pw", "me");
    match node.handle_received_message("them", chunk("a.b.txt", "pw", b"x", &["me"]), NOW) {
        MessageOutcome::ChunkStored { path, .. } => assert_eq!(path, "./me//a.b.txt"),
        _ => panic!("expected a stored chunk"),
    }
}

#[test]
fn wrong_password_from_an_unknown_sender_starts_below_zero() {
    let mut node = PeerNode::new("pw", "me");
    let out = node.handle_received_message("stranger", chunk("f(1-of-1)", "bad", b"x", &["me"]), NOW);
    assert!(matches!(out, MessageOutcome::ChunkRejected { score: -1 }));
    assert_eq!(node.scores.score_of("stranger"), Some(-1));
    assert!(node.transfer_logs().is_empty());
}

#[test]
fn held_chunks_stay_when_more_come() {
    let mut node = PeerNode::new("pw", "me");
    node.download_requested("f");
    node.handle_received_message("them", chunk("f(2-of-3)", "pw", b"bb", &["me"]), NOW);
    node.handle_received_message("them", chunk("f(2-of-3)", "pw", b"zz", &["me"]), NOW);
    node.handle_received_message("them", chunk("f(3-of-3)", "pw", b"c", &["me"]), NOW);
    assert_eq!(node.downloads.progress("f"), Some((2, 3)));
    match node.handle_received_message("them", chunk("f(1-of-3)", "pw", b"a", &["me"]), NOW) {
        MessageOutcome::ChunkStored { download: Some((_, _, o)), .. } => match o {
            ChunkOutcome::Recorded { completion: Completion::Complete(file), .. } => {
                assert_eq!(file, b"abbc".to_vec())
            }
            _ => panic!("expected the whole file"),
        },
        _ => panic!("expected a stored chunk"),
    }
}

#[test]
fn names_with_dots_or_backslashes_in_one_component_are_stored() {
    let mut node = PeerNode::new("pw", "me");
    node.download_requested("notes..v2.txt");
    match node.handle_received_message("them", chunk("notes..v2.txt(1-of-2)", "pw", b"ab", &["me"]), NOW) {
        MessageOutcome::ChunkStored { path, download: Some((file, out, _)), score, .. } => {
            assert_eq!(path, "./me//notes..v2.txt(1-of-2)");
            assert_eq!(file, "notes..v2.txt");
            assert_eq!(out, "./me//notes..v2.txt");
            assert_eq!(score, 50);
        }
        _ => panic!("expected a stored chunk in a download"),
    }
    assert_eq!(node.downloads.progress("notes..v2.txt"), Some((1, 2)));
    match node.handle_received_message("them", chunk("a\\b", "pw", b"x", &["me"]), NOW) {
        MessageOutcome::ChunkStored { path, .. } => assert_eq!(path, "./me//a\\b"),
        _ => panic!("expected a stored chunk"),
    }
}

#[test]
fn answer_keeps_listing_order_for_equal_indices() {
    let node = PeerNode::new("pw", "me");
    let entries: Vec<String> = vec![
        "f(2-of-2)".to_string(),
        "f(+1-of-2)".to_string(),
        "f(1-of-2)".to_string(),
    ];
    let (meta, files) = node.answer_request(&entries, "f").unwrap();
    assert_eq!(meta.total_chunks, 2);
    assert_eq!(files, vec!["f(+1-of-2)".to_string(), "f(1-of-2)".to_string(), "f(2-of-2)".to_string()]);
}
