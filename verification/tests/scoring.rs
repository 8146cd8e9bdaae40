use p2p_sys::scores::{PeerScores, CHUNK_REWARD, INITIAL_SCORE_MAX, INITIAL_SCORE_MIN};

fn table(entries: &[(&str, i64)]) -> PeerScores {
    let mut s = PeerScores::new();
    for (p, v) in entries {
        s.insert_if_absent(p, *v);
    }
    s
}

#[test]
fn update_starts_unknown_peers_at_zero() {
    let mut s = PeerScores::new();
    s.update_peer_score("p", CHUNK_REWARD);
    assert_eq!(s.score_of("p"), Some(50));
    s.update_peer_score("p", -1);
    assert_eq!(s.score_of("p"), Some(49));
    assert_eq!(s.len(), 1);
}

#[test]
fn update_holds_at_the_bounds() {
    let mut s = table(&[("p", i64::MAX - 1)]);
    s.update_peer_score("p", 10);
    assert_eq!(s.score_of("p"), Some(i64::MAX));
    let mut t = table(&[("q", i64::MIN + 1)]);
    t.update_peer_score("q", -10);
    assert_eq!(t.score_of("q"), Some(i64::MIN));
}

#[test]
fn known_peer_keeps_its_score() {
    let mut s = table(&[("p", 420)]);
    s.insert_if_absent("p", 700);
    assert_eq!(s.score_of("p"), Some(420));
    s.discover_peer("p");
    assert_eq!(s.score_of("p"), Some(420));
}

#[test]
fn discovered_peer_starts_in_range() {
    for _ in 0..50 {
        let mut s = PeerScores::new();
        s.discover_peer("new");
        let v = s.score_of("new").unwrap();
        assert!(INITIAL_SCORE_MIN <= v && v <= INITIAL_SCORE_MAX);
    }
}

#[test]
fn decay_drops_disconnected_and_never_goes_below_zero() {
    let mut s = table(&[("a", 500), ("b", 5), ("c", 700)]);
    s.remove_disconnected_peers_and_decay_scores(&vec!["a".to_string(), "b".to_string()]);
    assert_eq!(s.score_of("a"), Some(490));
    assert_eq!(s.score_of("b"), Some(0));
    assert_eq!(s.score_of("c"), None);
    assert_eq!(s.len(), 2);
}

#[test]
fn select_takes_the_best_then_one_more() {
    let s = table(&[("a", 500), ("b", 700), ("c", 300), ("d", 600)]);
    for _ in 0..20 {
        let chosen = s.select_peers(3);
        assert_eq!(chosen.len(), 3);
        assert_eq!(chosen[0], "b");
        assert_eq!(chosen[1], "d");
        assert!(chosen[2] == "a" || chosen[2] == "c");
    }
}

#[test]
fn select_returns_all_when_few_peers() {
    let s = table(&[("a", 500), ("b", 700)]);
    let chosen = s.select_peers(3);
    assert_eq!(chosen, vec!["b".to_string(), "a".to_string()]);
    let all = table(&[("a", 1), ("b", 4), ("c", 3), ("d", 2)]).select_peers(10);
    assert_eq!(all, vec!["b".to_string(), "c".to_string(), "d".to_string(), "a".to_string()]);
}

#[test]
fn select_with_no_room_or_no_peer_is_empty() {
    let s = table(&[("a", 500)]);
    assert!(s.select_peers(0).is_empty());
    assert!(PeerScores::new().select_peers(3).is_empty());
}

#[test]
fn select_one_is_drawn_from_all() {
    let s = table(&[("a", 500), ("b", 700)]);
    let chosen = s.select_peers(1);
    assert_eq!(chosen.len(), 1);
    assert!(chosen[0] == "a" || chosen[0] == "b");
}

#[test]
fn list_shows_every_peer_once() {
    let s = table(&[("a", 1), ("b", 2)]);
    let mut l = s.list();
    l.sort();
    assert_eq!(l, vec![("a".to_string(), 1), ("b".to_string(), 2)]);
}
