use gossip::config::PeerSamplingConfig;
use gossip::message::sampling::PeerSamplingMessage;
use gossip::message::MessageType;
use gossip::local_view::LocalView;
use gossip::sampling::PeerSamplingService;
use gossip::Peer;

const HOST: &str = "127.0.0.1:9000";

fn aged_peer(address: &str, age: u16) -> Peer {
    let mut peer = Peer::new(address.to_owned());
    for _ in 0..age {
        peer.increment_age();
    }
    peer
}

fn view_of(peers: &[(&str, u16)]) -> LocalView {
    let mut view = LocalView::new(HOST.to_owned());
    let list: Vec<Peer> = peers.iter().map(|(a, g)| aged_peer(a, *g)).collect();
    view.take_in(&list);
    view
}

fn pairs(peers: &[Peer]) -> Vec<(String, u16)> {
    peers.iter().map(|p| (p.address().to_owned(), p.age())).collect()
}

fn expect(peers: &[(&str, u16)]) -> Vec<(String, u16)> {
    peers.iter().map(|(a, g)| (a.to_string(), *g)).collect()
}

fn addresses(peers: &[Peer]) -> Vec<String> {
    let mut list: Vec<String> = peers.iter().map(|p| p.address().to_owned()).collect();
    list.sort();
    list
}

fn drain_queue(view: &mut LocalView, count: usize) -> Vec<String> {
    let mut taken = Vec::new();
    for _ in 0..count {
        taken.push(view.get_peer().unwrap().address().to_owned());
    }
    taken
}

#[test]
fn new_view_is_empty() {
    let mut view = LocalView::new(HOST.to_owned());
    assert_eq!(view.len(), 0);
    assert!(view.peers().is_empty());
    assert!(view.select_peer().is_none());
    assert!(view.get_peer().is_none());
}

#[test]
fn take_in_leaves_out_the_node_itself() {
    let view = view_of(&[("a", 1), (HOST, 0), ("b", 2), (HOST, 5), ("a", 3)]);
    assert_eq!(pairs(&view.peers()), expect(&[("a", 1), ("b", 2), ("a", 3)]));
}

#[test]
fn select_peer_picks_from_the_view() {
    let view = view_of(&[("a", 0), ("b", 0), ("c", 0)]);
    for _ in 0..50 {
        let picked = view.select_peer().unwrap();
        assert!(["a", "b", "c"].contains(&picked.address()));
    }
}

#[test]
fn permute_keeps_the_peers() {
    let mut view = view_of(&[("a", 0), ("b", 1), ("c", 2), ("d", 3), ("e", 4)]);
    for _ in 0..20 {
        view.permute();
        let mut now = pairs(&view.peers());
        now.sort();
        assert_eq!(now, expect(&[("a", 0), ("b", 1), ("c", 2), ("d", 3), ("e", 4)]));
    }
}

#[test]
fn permute_changes_the_order() {
    let names: Vec<String> = (0..12).map(|i| format!("n{:02}", i)).collect();
    let listed: Vec<(&str, u16)> = names.iter().map(|n| (n.as_str(), 0u16)).collect();
    let mut view = view_of(&listed);
    let start = pairs(&view.peers());
    let mut moved = false;
    for _ in 0..20 {
        view.permute();
        moved = moved || pairs(&view.peers()) != start;
    }
    assert!(moved);
}

#[test]
fn head_takes_one_less_than_half_the_view_size() {
    let names: Vec<String> = (0..20).map(|i| format!("n{:02}", i)).collect();
    let listed: Vec<(&str, u16)> = names.iter().map(|n| (n.as_str(), 0u16)).collect();
    let view = view_of(&listed);
    assert_eq!(view.head(30).len(), 14);
    assert_eq!(pairs(&view.head(8)), expect(&[("n00", 0), ("n01", 0), ("n02", 0)]));
    assert_eq!(view.head(4).len(), 1);
    assert_eq!(view.head(3).len(), 0);
    assert_eq!(view.head(2).len(), 0);
    assert_eq!(view.head(1).len(), 0);
    assert_eq!(view.head(0).len(), 0);
    assert_eq!(view.head(1000).len(), 20);
}

#[test]
fn increase_age_advances_every_peer() {
    let mut view = view_of(&[("a", 0), ("b", 41), ("c", 65535)]);
    view.increase_age();
    assert_eq!(pairs(&view.peers()), expect(&[("a", 1), ("b", 42), ("c", 65535)]));
}

#[test]
fn remove_duplicates_keeps_the_youngest_at_the_first_place() {
    let mut view = view_of(&[("a", 3), ("b", 1), ("a", 2), ("c", 0), ("b", 5), ("a", 2)]);
    view.remove_duplicates();
    assert_eq!(pairs(&view.peers()), expect(&[("a", 2), ("b", 1), ("c", 0)]));
}

#[test]
fn remove_old_items_takes_the_oldest_of_the_excess() {
    let mut view = view_of(&[("a", 5), ("b", 7), ("c", 7), ("d", 1), ("e", 7)]);
    view.remove_old_items(3, 2);
    assert_eq!(pairs(&view.peers()), expect(&[("a", 5), ("b", 7), ("d", 1)]));

    let mut view = view_of(&[("a", 5), ("b", 7), ("c", 7), ("d", 1), ("e", 7)]);
    view.remove_old_items(3, 1);
    assert_eq!(pairs(&view.peers()), expect(&[("a", 5), ("b", 7), ("c", 7), ("d", 1)]));

    let mut view = view_of(&[("a", 5), ("b", 7), ("c", 7), ("d", 1), ("e", 7)]);
    view.remove_old_items(1, 10);
    assert_eq!(pairs(&view.peers()), expect(&[("d", 1)]));
}

#[test]
fn a_view_of_exactly_the_view_size_loses_nothing() {
    let mut view = view_of(&[("a", 5), ("b", 7), ("c", 9)]);
    view.remove_old_items(3, 2);
    view.remove_head(3, 2);
    view.remove_at_random(3);
    assert_eq!(pairs(&view.peers()), expect(&[("a", 5), ("b", 7), ("c", 9)]));
    view.remove_old_items(3, 0);
    view.remove_old_items(10, 5);
    assert_eq!(pairs(&view.peers()), expect(&[("a", 5), ("b", 7), ("c", 9)]));
}

#[test]
fn move_oldest_to_end_keeps_the_order_of_the_rest() {
    let mut view = view_of(&[("a", 5), ("b", 7), ("c", 7), ("d", 1), ("e", 7)]);
    view.move_oldest_to_end(2);
    assert_eq!(pairs(&view.peers()), expect(&[("a", 5), ("b", 7), ("d", 1), ("c", 7), ("e", 7)]));

    let mut view = view_of(&[("a", 9), ("b", 1), ("c", 8)]);
    view.move_oldest_to_end(1);
    assert_eq!(pairs(&view.peers()), expect(&[("b", 1), ("c", 8), ("a", 9)]));

    let mut view = view_of(&[("a", 9), ("b", 1), ("c", 8)]);
    view.move_oldest_to_end(3);
    assert_eq!(pairs(&view.peers()), expect(&[("a", 9), ("b", 1), ("c", 8)]));
    view.move_oldest_to_end(0);
    assert_eq!(pairs(&view.peers()), expect(&[("a", 9), ("b", 1), ("c", 8)]));
}

#[test]
fn remove_head_drops_from_the_front() {
    let mut view = view_of(&[("a", 0), ("b", 0), ("c", 0), ("d", 0), ("e", 0)]);
    view.remove_head(3, 1);
    assert_eq!(pairs(&view.peers()), expect(&[("b", 0), ("c", 0), ("d", 0), ("e", 0)]));
    view.remove_head(2, 12);
    assert_eq!(pairs(&view.peers()), expect(&[("d", 0), ("e", 0)]));
    view.remove_head(2, 12);
    assert_eq!(pairs(&view.peers()), expect(&[("d", 0), ("e", 0)]));
    view.remove_head(0, 0);
    assert_eq!(view.len(), 2);
}

#[test]
fn remove_at_random_cuts_down_to_the_view_size() {
    for _ in 0..20 {
        let mut view = view_of(&[("a", 0), ("b", 1), ("c", 2), ("d", 3), ("e", 4)]);
        view.remove_at_random(2);
        let left = pairs(&view.peers());
        assert_eq!(left.len(), 2);
        let all = expect(&[("a", 0), ("b", 1), ("c", 2), ("d", 3), ("e", 4)]);
        let first = all.iter().position(|p| *p == left[0]).unwrap();
        let second = all.iter().position(|p| *p == left[1]).unwrap();
        assert!(first < second);
    }
    let mut view = view_of(&[("a", 0), ("b", 1)]);
    view.remove_at_random(0);
    assert_eq!(view.len(), 0);
}

#[test]
fn update_queue_follows_the_view() {
    let mut view = view_of(&[("a", 0), ("b", 0), ("c", 0)]);
    view.update_queue();
    assert_eq!(view.get_peer().unwrap().address(), "a");
    // "a" leaves the view: it leaves the queue, "b" and "c" stay in order
    view.remove_head(2, 5);
    view.update_queue();
    view.take_in(&vec![Peer::new("d".to_owned()), Peer::new("a".to_owned())]);
    view.update_queue();
    assert_eq!(drain_queue(&mut view, 4), vec!["b", "c", "d", "a"]);
    // the queue is empty: the view answers
    let picked = view.get_peer().unwrap();
    assert!(["b", "c", "d", "a"].contains(&picked.address()));
    assert_eq!(view.len(), 4);
}

#[test]
fn select_merges_a_buffer() {
    let mut view = view_of(&[("a", 1), ("b", 2)]);
    let buffer = vec![aged_peer(HOST, 0), aged_peer("c", 0), aged_peer("a", 0), aged_peer("d", 4)];
    view.select(3, 1, 1, &buffer);
    assert_eq!(pairs(&view.peers()), expect(&[("a", 0), ("b", 2), ("c", 0)]));
    assert_eq!(drain_queue(&mut view, 3), vec!["a", "b", "c"]);
}

#[test]
fn select_heals_then_swaps() {
    // six peers for a view of three: one of the oldest goes, then two from the head
    let mut view = view_of(&[("a", 1), ("b", 9), ("c", 2)]);
    let buffer = vec![aged_peer("d", 0), aged_peer("e", 3), aged_peer("f", 9)];
    view.select(3, 1, 2, &buffer);
    assert_eq!(pairs(&view.peers()), expect(&[("c", 2), ("d", 0), ("e", 3)]));
}

#[test]
fn select_keeps_the_bound_and_leaves_out_the_host() {
    let mut view = LocalView::new(HOST.to_owned());
    for round in 0..30 {
        let buffer: Vec<Peer> = (0..12)
            .map(|i| aged_peer(&format!("127.0.0.1:{}", 9000 + (round * 5 + i) % 40), (i % 4) as u16))
            .collect();
        view.select(8, 2, 3, &buffer);
        let peers = view.peers();
        assert!(peers.len() <= 8);
        assert!(peers.iter().all(|p| p.address() != HOST));
        let mut names = addresses(&peers);
        names.dedup();
        assert_eq!(names.len(), peers.len());
        view.increase_age();
    }
}

#[test]
fn a_view_size_of_zero_keeps_the_view_empty() {
    let mut view = view_of(&[("a", 1)]);
    view.select(0, 3, 12, &vec![aged_peer("b", 0)]);
    assert_eq!(view.len(), 0);
    assert!(view.get_peer().is_none());
    assert!(view.head(0).is_empty());
}

#[test]
fn clear_empties_view_and_queue() {
    let mut view = view_of(&[("a", 1), ("b", 1)]);
    view.update_queue();
    view.clear();
    assert_eq!(view.len(), 0);
    assert!(view.get_peer().is_none());
}

#[test]
fn service_seeds_its_view_without_itself() {
    let mut service = PeerSamplingService::new(HOST.to_owned(), PeerSamplingConfig::default());
    service.init(Some(vec![Peer::new("a".to_owned()), Peer::new(HOST.to_owned()), Peer::new("b".to_owned())]));
    assert_eq!(pairs(&service.peers()), expect(&[("a", 0), ("b", 0)]));
    service.init(None);
    assert_eq!(service.peers().len(), 2);
    service.shutdown();
    assert!(service.peers().is_empty());
    assert!(service.get_peer().is_none());
}

#[test]
fn build_buffer_starts_with_the_node_itself() {
    let config = PeerSamplingConfig::new(true, true, 1000, 8, 1, 2);
    let mut service = PeerSamplingService::new(HOST.to_owned(), config);
    service.init(Some(vec![aged_peer("a", 1), aged_peer("b", 9), aged_peer("c", 2), aged_peer("d", 3)]));
    for _ in 0..20 {
        let buffer = service.build_buffer();
        assert_eq!(buffer.len(), 4);
        assert_eq!(buffer[0].address(), HOST);
        assert_eq!(buffer[0].age(), 0);
        // the oldest peer stands at the end of the view and stays out of the buffer
        let view = service.peers();
        assert_eq!(view[3].address(), "b");
        assert_eq!(pairs(&buffer[1..]), pairs(&view[..3]));
    }
}

#[test]
fn an_empty_view_starts_no_exchange() {
    let mut service = PeerSamplingService::new(HOST.to_owned(), PeerSamplingConfig::default());
    assert!(service.sampling_cycle().is_none());
}

#[test]
fn sampling_cycle_pushes_a_buffer_and_ages_the_view() {
    let config = PeerSamplingConfig::new(true, true, 1000, 30, 3, 12);
    let mut service = PeerSamplingService::new(HOST.to_owned(), config);
    service.init(Some(vec![aged_peer("a", 1)]));
    let (partner, request) = service.sampling_cycle().unwrap();
    assert_eq!(partner.address(), "a");
    assert_eq!(request.sender(), HOST);
    assert_eq!(*request.message_type(), MessageType::Request);
    assert_eq!(pairs(request.view().as_ref().unwrap()), expect(&[(HOST, 0), ("a", 1)]));
    assert_eq!(pairs(&service.peers()), expect(&[("a", 2)]));
}

#[test]
fn sampling_cycle_without_push_sends_no_view() {
    let config = PeerSamplingConfig::new(false, true, 1000, 30, 3, 12);
    let mut service = PeerSamplingService::new(HOST.to_owned(), config);
    service.init(Some(vec![aged_peer("a", 1)]));
    let (_, request) = service.sampling_cycle().unwrap();
    assert!(request.view().is_none());
    assert_eq!(pairs(&service.peers()), expect(&[("a", 2)]));
}

#[test]
fn a_request_is_answered_where_the_node_pulls() {
    let config = PeerSamplingConfig::new(true, true, 1000, 30, 3, 12);
    let mut service = PeerSamplingService::new(HOST.to_owned(), config);
    let request = PeerSamplingMessage::new_request("b".to_owned(), Some(vec![aged_peer("b", 0), aged_peer("c", 4)]));
    let reply = service.on_message(&request).unwrap();
    assert_eq!(reply.sender(), HOST);
    assert_eq!(*reply.message_type(), MessageType::Response);
    assert_eq!(pairs(reply.view().as_ref().unwrap()), expect(&[(HOST, 0)]));
    assert_eq!(pairs(&service.peers()), expect(&[("b", 1), ("c", 5)]));
    assert_eq!(service.get_peer().unwrap().address(), "b");

    // a response is not answered
    let response = PeerSamplingMessage::new_response("d".to_owned(), Some(vec![aged_peer("d", 0)]));
    assert!(service.on_message(&response).is_none());
    assert_eq!(pairs(&service.peers()), expect(&[("b", 2), ("c", 6), ("d", 1)]));
}

#[test]
fn a_request_is_not_answered_where_the_node_does_not_pull() {
    let config = PeerSamplingConfig::new(true, false, 1000, 30, 3, 12);
    let mut service = PeerSamplingService::new(HOST.to_owned(), config);
    let request = PeerSamplingMessage::new_request("b".to_owned(), None);
    assert!(service.on_message(&request).is_none());
    assert!(service.peers().is_empty());
}
