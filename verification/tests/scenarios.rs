use std::sync::{Arc, Mutex};

use gossip::message::gossip::{ContentMessage, HeaderMessage};
use gossip::message::sampling::PeerSamplingMessage;
use gossip::message::MessageType;
use gossip::network::{frame, handle_message, Protocol};
use gossip::update::SubmitError;
use gossip::{GossipConfig, GossipService, Peer, PeerSamplingConfig, Update, UpdateExpirationMode, UpdateHandler};

type Seen = Arc<Mutex<Vec<(String, Vec<u8>)>>>;

struct Recorder {
    seen: Seen,
}

impl UpdateHandler for Recorder {
    fn on_update(&self, update: Update) {
        self.seen.lock().unwrap().push((update.digest().clone(), update.content().clone()));
    }
}

struct NoopUpdateHandler;

impl UpdateHandler for NoopUpdateHandler {
    fn on_update(&self, _update: Update) {}
}

fn digest(content: &[u8]) -> String {
    blake3::hash(content).to_hex().to_string()
}

fn digests(updates: &[Update]) -> Vec<String> {
    updates.iter().map(|u| u.digest().clone()).collect()
}

/// Nodes that hand their messages to one another in memory.
struct Cluster {
    nodes: Vec<GossipService<Recorder>>,
    seen: Vec<Seen>,
    now: u128,
}

impl Cluster {
    fn new() -> Cluster {
        Cluster { nodes: Vec::new(), seen: Vec::new(), now: 0 }
    }

    fn add(&mut self, address: &str, sampling: PeerSamplingConfig, gossip: GossipConfig, seeds: Option<Vec<Peer>>) {
        let seen: Seen = Arc::new(Mutex::new(Vec::new()));
        let mut node = GossipService::new(address.to_owned(), sampling, gossip);
        node.start(seeds, Box::new(Recorder { seen: seen.clone() }));
        self.nodes.push(node);
        self.seen.push(seen);
    }

    fn find(&self, address: &str) -> Option<usize> {
        self.nodes.iter().position(|n| n.address() == address)
    }

    /// Sends a sampling message over the wire format and hands it over.
    fn carry_sampling(&mut self, to: usize, message: PeerSamplingMessage) -> Option<PeerSamplingMessage> {
        let body = message.as_bytes().unwrap();
        let (protocol, body) = handle_message(frame(&message, body)).unwrap();
        assert_eq!(protocol, Protocol::Sampling);
        let read = PeerSamplingMessage::from_bytes(body).unwrap();
        self.nodes[to].on_sampling_message(&read)
    }

    fn sampling_cycle(&mut self, from: usize) {
        if let Some((partner, request)) = self.nodes[from].sampling_cycle() {
            if let Some(to) = self.find(partner.address()) {
                if let Some(reply) = self.carry_sampling(to, request) {
                    assert_eq!(reply.sender(), self.nodes[to].address());
                    let none = self.carry_sampling(from, reply);
                    assert!(none.is_none());
                }
            }
        }
    }

    /// Hands a content message to a node and gives what it admits to its
    /// handler, as the application around the service does.
    fn carry_content(&mut self, to: usize, message: ContentMessage) -> Option<ContentMessage> {
        let now = self.now;
        let (reply, admitted) = self.nodes[to].on_content_message(message, now);
        for update in admitted {
            self.nodes[to].update_handler().unwrap().on_update(update);
        }
        reply
    }

    fn content_request(&mut self, asker: usize, holder: usize, request: ContentMessage) {
        assert_eq!(*request.message_type(), MessageType::Request);
        let response = self.carry_content(holder, request);
        if let Some(response) = response {
            assert_eq!(*response.message_type(), MessageType::Response);
            let none = self.carry_content(asker, response);
            assert!(none.is_none());
        }
    }

    fn header(&mut self, from: usize, to: usize, message: HeaderMessage) {
        let (response, request) = self.nodes[to].on_header_message(&message);
        if let Some(request) = request {
            self.content_request(to, from, request);
        }
        if let Some(response) = response {
            let (none, request) = self.nodes[from].on_header_message(&response);
            assert!(none.is_none());
            if let Some(request) = request {
                self.content_request(from, to, request);
            }
        }
    }

    fn gossip_cycle(&mut self, from: usize) {
        let now = self.now;
        if let Some((partner, request)) = self.nodes[from].gossip_cycle(now) {
            assert_eq!(request.sender(), self.nodes[from].address());
            if let Some(to) = self.find(partner.address()) {
                self.header(from, to, request);
            }
        }
    }

    fn sampling_round(&mut self) {
        for i in 0..self.nodes.len() {
            self.sampling_cycle(i);
        }
    }

    fn gossip_round(&mut self, period: u128) {
        self.now += period;
        for i in 0..self.nodes.len() {
            self.gossip_cycle(i);
        }
    }

    fn seen_by(&self, node: usize) -> Vec<(String, Vec<u8>)> {
        self.seen[node].lock().unwrap().clone()
    }
}

fn pair(sampling: PeerSamplingConfig, gossip: GossipConfig) -> Cluster {
    let mut cluster = Cluster::new();
    cluster.add("127.0.0.1:9000", sampling, gossip, None);
    cluster.add("127.0.0.1:9001", sampling, gossip, Some(vec![Peer::new("127.0.0.1:9000".to_owned())]));
    cluster
}

fn many(count: usize, sampling: PeerSamplingConfig, gossip: GossipConfig) -> Cluster {
    let mut cluster = Cluster::new();
    cluster.add("127.0.0.1:9000", sampling, gossip, None);
    for i in 1..count {
        let address = format!("127.0.0.1:{}", 9000 + i);
        cluster.add(&address, sampling, gossip, Some(vec![Peer::new("127.0.0.1:9000".to_owned())]));
    }
    cluster
}

/// Submits `count` messages to nodes in turn and runs cycles until every
/// other node has got every message; returns the messages.
fn broadcast(cluster: &mut Cluster, count: usize, period: u128, rounds: usize) -> Vec<(usize, Vec<u8>)> {
    let mut messages = Vec::new();
    for i in 0..count {
        let message = format!("MSGID {}", i).as_bytes().to_vec();
        let node = (i * 7 + 3) % cluster.nodes.len();
        let now = cluster.now;
        assert_eq!(cluster.nodes[node].submit(message.clone(), now), Ok(()));
        messages.push((node, message));
    }
    for _ in 0..rounds {
        cluster.sampling_round();
        cluster.gossip_round(period);
        let done = (0..cluster.nodes.len()).all(|n| {
            let got = cluster.seen_by(n).len();
            got + messages.iter().filter(|(origin, _)| *origin == n).count() == messages.len()
        });
        if done {
            break;
        }
    }
    messages
}

fn assert_delivered_once(cluster: &Cluster, messages: &[(usize, Vec<u8>)]) {
    for node in 0..cluster.nodes.len() {
        let seen = cluster.seen_by(node);
        for (origin, message) in messages {
            let times = seen.iter().filter(|(d, c)| *d == digest(message) && c == message).count();
            if *origin == node {
                assert_eq!(times, 0, "node {} was handed its own update", node);
            } else {
                assert_eq!(times, 1, "node {} got an update {} times", node, times);
            }
        }
        let own = messages.iter().filter(|(origin, _)| *origin == node).count();
        assert_eq!(seen.len() + own, messages.len());
    }
}

#[test]
fn submit_active() {
    let address_1 = "127.0.0.1:9000";
    let mut service_1: GossipService<NoopUpdateHandler> = GossipService::new_with_defaults(address_1.to_owned());
    service_1.start(None, Box::new(NoopUpdateHandler));

    // JSON message
    let message_content = "{{ \"id\": \"toto\", \"name\": \"John Doe\" }}";

    assert!(service_1.submit(message_content.as_bytes().to_vec(), 0).is_ok());
    assert!(service_1.is_active(message_content.as_bytes().to_vec()));
}

#[test]
fn example() {
    // node address
    let address = "127.0.0.1:9000";

    // existing peer(s) in the network
    let existing_peers = Some(vec![Peer::new("127.0.0.1:9001".to_owned())]);

    // create and start the service
    let mut gossip_service: GossipService<NoopUpdateHandler> = GossipService::new_with_defaults(address.to_owned());
    gossip_service.start(existing_peers, Box::new(NoopUpdateHandler));
    assert_eq!(gossip_service.address(), address);
    assert_eq!(gossip_service.peers().len(), 1);
    assert_eq!(gossip_service.peers()[0].address(), "127.0.0.1:9001");

    // submit a message
    gossip_service.submit("Some random message".as_bytes().to_vec(), 0).unwrap();
    assert!(gossip_service.is_active("Some random message".as_bytes().to_vec()));

    // shutdown the gossip protocol
    gossip_service.shutdown();
    assert!(gossip_service.peers().is_empty());
    assert!(!gossip_service.is_active("Some random message".as_bytes().to_vec()));
    // shutting down twice changes nothing
    gossip_service.shutdown();
    assert!(gossip_service.peers().is_empty());
}

#[test]
fn defaults() {
    let sampling = PeerSamplingConfig::default();
    assert!(sampling.is_push());
    assert!(sampling.is_pull());
    assert_eq!(sampling.sampling_period(), 60000);
    assert_eq!(sampling.sampling_deviation(), 0);
    assert_eq!(sampling.view_size(), 30);
    assert_eq!(sampling.healing_factor(), 3);
    assert_eq!(sampling.swapping_factor(), 12);
    let gossip = GossipConfig::default();
    assert!(gossip.is_push());
    assert!(gossip.is_pull());
    assert_eq!(gossip.gossip_period(), 1000);
    assert_eq!(gossip.gossip_deviation(), 0);
    assert_eq!(*gossip.update_expiration(), UpdateExpirationMode::Never);
}

#[test]
fn configurations_hold_what_they_were_given() {
    let sampling = PeerSamplingConfig::new(false, true, 5, 6, 7, 8);
    assert!(!sampling.is_push());
    assert!(sampling.is_pull());
    assert_eq!(sampling.sampling_period(), 5);
    assert_eq!(sampling.sampling_deviation(), 0);
    assert_eq!(sampling.view_size(), 6);
    assert_eq!(sampling.healing_factor(), 7);
    assert_eq!(sampling.swapping_factor(), 8);
    let sampling = PeerSamplingConfig::new_with_deviation(true, false, 5, 9, 6, 7, 8);
    assert!(sampling.is_push());
    assert!(!sampling.is_pull());
    assert_eq!(sampling.sampling_deviation(), 9);
    let gossip = GossipConfig::new(true, false, 600, UpdateExpirationMode::PushCount(5));
    assert!(gossip.is_push());
    assert!(!gossip.is_pull());
    assert_eq!(gossip.gossip_period(), 600);
    assert_eq!(gossip.gossip_deviation(), 0);
    assert_eq!(*gossip.update_expiration(), UpdateExpirationMode::PushCount(5));
    let gossip = GossipConfig::new_with_deviation(false, true, 600, 300, UpdateExpirationMode::MostRecent(3, 1));
    assert_eq!(gossip.gossip_deviation(), 300);
    assert_eq!(*gossip.update_expiration(), UpdateExpirationMode::MostRecent(3, 1));
}

#[test]
fn two_node_echo() {
    let mut cluster = pair(PeerSamplingConfig::default(), GossipConfig::default());
    for _ in 0..3 {
        cluster.sampling_round();
    }
    let first: Vec<String> = cluster.nodes[0].peers().iter().map(|p| p.address().to_owned()).collect();
    let second: Vec<String> = cluster.nodes[1].peers().iter().map(|p| p.address().to_owned()).collect();
    assert_eq!(first, vec!["127.0.0.1:9001"]);
    assert_eq!(second, vec!["127.0.0.1:9000"]);

    assert_eq!(cluster.nodes[0].submit(b"hello".to_vec(), 0), Ok(()));
    cluster.gossip_round(1000);
    cluster.gossip_round(1000);
    assert_eq!(
        cluster.seen_by(1),
        vec![("ea8f163db38682925e4491c5e58d4bb3506ef8c14eb78a86e908c5624a67200f".to_owned(), b"hello".to_vec())]
    );
    assert!(cluster.seen_by(0).is_empty());
    assert!(cluster.nodes[1].is_active(b"hello".to_vec()));
    // further cycles hand nothing over again
    for _ in 0..5 {
        cluster.gossip_round(1000);
    }
    assert_eq!(cluster.seen_by(1).len(), 1);
    assert!(cluster.seen_by(0).is_empty());
}

#[test]
fn forty_node_fanout() {
    let sampling = PeerSamplingConfig::new(true, true, 1000, 30, 3, 12);
    let gossip = GossipConfig::new(true, true, 400, UpdateExpirationMode::Never);
    let mut cluster = many(40, sampling, gossip);
    for _ in 0..10 {
        cluster.sampling_round();
    }
    for node in &cluster.nodes {
        let peers = node.peers();
        assert!(!peers.is_empty());
        assert!(peers.len() <= 30);
        assert!(peers.iter().all(|p| p.address() != node.address()));
    }
    let messages = broadcast(&mut cluster, 10, 400, 500);
    assert_delivered_once(&cluster, &messages);
    for _ in 0..5 {
        cluster.sampling_round();
        cluster.gossip_round(400);
    }
    assert_delivered_once(&cluster, &messages);
}

#[test]
fn broadcast_all_updates_received() {
    let sampling = PeerSamplingConfig::new_with_deviation(true, true, 3000, 3000, 30, 3, 12);
    let gossip = GossipConfig::new_with_deviation(true, true, 600, 300, UpdateExpirationMode::PushCount(5));
    let mut cluster = many(200, sampling, gossip);
    for _ in 0..10 {
        cluster.sampling_round();
    }
    let message = b"MSGID 0".to_vec();
    assert_eq!(cluster.nodes[17].submit(message.clone(), 0), Ok(()));
    for _ in 0..40 {
        cluster.sampling_round();
        cluster.gossip_round(600);
    }
    for node in 0..cluster.nodes.len() {
        let seen = cluster.seen_by(node);
        if node == 17 {
            assert!(seen.is_empty());
        } else {
            assert_eq!(seen, vec![(digest(&message), message.clone())]);
        }
    }
}

#[test]
fn expiration_none_all_updates_received() {
    let sampling = PeerSamplingConfig::new(true, true, 1000, 30, 3, 12);
    let gossip = GossipConfig::new(true, true, 400, UpdateExpirationMode::Never);
    let mut cluster = many(10, sampling, gossip);
    for _ in 0..5 {
        cluster.sampling_round();
    }
    let messages = broadcast(&mut cluster, 10, 400, 500);
    assert_delivered_once(&cluster, &messages);
    for (_, message) in &messages {
        for node in &cluster.nodes {
            assert!(node.is_active(message.clone()));
            assert!(!node.is_expired(message.clone()));
        }
    }
}

#[test]
fn expiration_push_all_updates_received() {
    let gossip_period = 600;
    let push_count = 5;
    let sampling = PeerSamplingConfig::new(true, true, 1000, 30, 3, 12);
    let gossip = GossipConfig::new(true, true, gossip_period, UpdateExpirationMode::PushCount(push_count));
    let mut cluster = pair(sampling, gossip);
    cluster.sampling_round();
    cluster.sampling_round();

    let mut messages = Vec::new();
    for i in 0..10 {
        let message = format!("MSGID {}", i).as_bytes().to_vec();
        let now = cluster.now;
        assert_eq!(cluster.nodes[1].submit(message.clone(), now), Ok(()));
        messages.push(message);
    }
    for _ in 0..(push_count + 1) {
        cluster.gossip_round(gossip_period as u128);
    }
    for message in messages {
        assert!(cluster.nodes[1].is_expired(message.clone()));
        assert!(!cluster.nodes[1].is_active(message));
    }
}

#[test]
fn push_count_expiration() {
    let gossip = GossipConfig::new(true, true, 1000, UpdateExpirationMode::PushCount(5));
    let mut cluster = pair(PeerSamplingConfig::default(), gossip);
    cluster.sampling_round();
    assert_eq!(cluster.nodes[0].submit(b"m".to_vec(), 0), Ok(()));
    for _ in 0..4 {
        cluster.gossip_round(1000);
        assert!(cluster.nodes[0].is_active(b"m".to_vec()));
        assert!(!cluster.nodes[0].is_expired(b"m".to_vec()));
    }
    cluster.gossip_round(1000);
    cluster.gossip_round(1000);
    assert!(cluster.nodes[0].is_expired(b"m".to_vec()));
    assert!(!cluster.nodes[0].is_active(b"m".to_vec()));
    // the other node got it once, and an expired update is not taken back
    assert_eq!(cluster.seen_by(1), vec![(digest(b"m"), b"m".to_vec())]);
    for _ in 0..10 {
        cluster.gossip_round(1000);
    }
    assert!(cluster.seen_by(0).is_empty());
    assert_eq!(cluster.seen_by(1).len(), 1);
}

#[test]
fn expiration_count_all_updates_received() {
    let gossip_period = 600;
    let size = 3;
    let sampling = PeerSamplingConfig::new(true, true, 1000, 30, 3, 12);
    let gossip = GossipConfig::new(true, true, gossip_period, UpdateExpirationMode::MostRecent(size, 0));
    let mut cluster = pair(sampling, gossip);
    cluster.sampling_round();
    cluster.sampling_round();

    let mut messages = Vec::new();
    for i in 0..size {
        let message = format!("MSGID {}", i).as_bytes().to_vec();
        cluster.now += 20;
        let now = cluster.now;
        assert_eq!(cluster.nodes[1].submit(message.clone(), now), Ok(()));
        messages.push(message);
    }
    // all messages should still be active
    for message in &messages {
        assert!(cluster.nodes[1].is_active(message.to_vec()));
    }
    // this should expire all existing messages
    let mut later = Vec::new();
    for i in size..2 * size {
        let message = format!("MSGID {}", i).as_bytes().to_vec();
        cluster.now += 20;
        let now = cluster.now;
        assert_eq!(cluster.nodes[1].submit(message.clone(), now), Ok(()));
        later.push(message);
    }
    cluster.gossip_round(gossip_period as u128);
    for message in messages {
        assert!(cluster.nodes[1].is_expired(message.clone()));
        assert!(!cluster.nodes[1].is_active(message));
    }
    for message in later {
        assert!(cluster.nodes[1].is_active(message.clone()));
        assert!(!cluster.nodes[1].is_expired(message));
    }
}

#[test]
fn duplicate_submit() {
    let mut service: GossipService<NoopUpdateHandler> = GossipService::new_with_defaults("127.0.0.1:9000".to_owned());
    service.start(None, Box::new(NoopUpdateHandler));
    assert_eq!(service.submit(b"x".to_vec(), 0), Ok(()));
    assert_eq!(service.submit(b"x".to_vec(), 0), Err(SubmitError::AlreadyActive));
    assert_eq!(service.submit(b"x".to_vec(), 5000), Err(SubmitError::AlreadyActive));
    assert!(service.is_active(b"x".to_vec()));
}

#[test]
fn submit_expired() {
    let sampling = PeerSamplingConfig::new_with_deviation(true, true, 2000, 1, 10, 1, 4);
    let gossip = GossipConfig::new_with_deviation(true, true, 1000, 1, UpdateExpirationMode::DurationMillis(1500));
    let mut cluster = pair(sampling, gossip);
    cluster.sampling_round();

    // JSON message
    let message_content_1 = "{{ \"id\": \"toto\", \"name\": \"John Doe\" }}";
    assert_eq!(cluster.nodes[0].submit(message_content_1.as_bytes().to_vec(), 0), Ok(()));
    cluster.gossip_round(1000);
    assert!(cluster.nodes[0].is_active(message_content_1.as_bytes().to_vec()));

    // wait for expiration
    for _ in 0..10 {
        cluster.gossip_round(1000);
    }
    assert!(cluster.nodes[0].is_expired(message_content_1.as_bytes().to_vec()));
    let now = cluster.now;
    assert_eq!(
        cluster.nodes[0].submit(message_content_1.as_bytes().to_vec(), now),
        Err(SubmitError::AlreadyExpired)
    );
}

#[test]
fn a_node_without_peers_sends_nothing() {
    let mut service: GossipService<NoopUpdateHandler> = GossipService::new_with_defaults("127.0.0.1:9000".to_owned());
    service.start(None, Box::new(NoopUpdateHandler));
    service.submit(b"x".to_vec(), 0).unwrap();
    assert!(service.gossip_cycle(1000).is_none());
    assert!(service.sampling_cycle().is_none());
}

#[test]
fn a_header_request_is_answered_and_followed_up() {
    let mut service: GossipService<NoopUpdateHandler> = GossipService::new_with_defaults("127.0.0.1:9000".to_owned());
    service.start(None, Box::new(NoopUpdateHandler));
    service.submit(b"mine".to_vec(), 0).unwrap();

    let mut request = HeaderMessage::new_request("127.0.0.1:9001".to_owned());
    request.set_headers(vec![digest(b"yours"), digest(b"mine"), digest(b"yours"), digest(b"theirs")]);
    let (response, ask) = service.on_header_message(&request);
    let response = response.unwrap();
    assert_eq!(response.sender(), "127.0.0.1:9000");
    assert_eq!(*response.message_type(), MessageType::Response);
    assert_eq!(response.headers(), &vec![digest(b"mine")]);
    let ask = ask.unwrap();
    assert_eq!(ask.sender(), "127.0.0.1:9000");
    assert_eq!(*ask.message_type(), MessageType::Request);
    assert_eq!(ask.content(), vec![(digest(b"yours"), Vec::new()), (digest(b"theirs"), Vec::new())]);

    // a request of the node's own is not answered with an advertisement
    let mut own = HeaderMessage::new_request("127.0.0.1:9000".to_owned());
    own.set_headers(vec![digest(b"mine")]);
    let (response, ask) = service.on_header_message(&own);
    assert!(response.is_none());
    assert!(ask.is_none());

    // a response is looked at, and not answered
    let mut answer = HeaderMessage::new_response("127.0.0.1:9001".to_owned());
    answer.set_headers(vec![digest(b"new")]);
    let (response, ask) = service.on_header_message(&answer);
    assert!(response.is_none());
    assert_eq!(ask.unwrap().content(), vec![(digest(b"new"), Vec::new())]);
}

#[test]
fn push_and_pull_decide_what_is_looked_at() {
    let sampling = PeerSamplingConfig::default();
    let mut request = HeaderMessage::new_request("b".to_owned());
    request.set_headers(vec![digest(b"new")]);
    let mut response = HeaderMessage::new_response("b".to_owned());
    response.set_headers(vec![digest(b"new")]);

    let mut no_push: GossipService<NoopUpdateHandler> =
        GossipService::new("a".to_owned(), sampling, GossipConfig::new(false, true, 1000, UpdateExpirationMode::Never));
    no_push.submit(b"mine".to_vec(), 0).unwrap();
    let (advertised, ask) = no_push.on_header_message(&request);
    assert!(advertised.is_some());
    assert!(ask.is_none());
    let (advertised, ask) = no_push.on_header_message(&response);
    assert!(advertised.is_none());
    assert!(ask.is_some());

    let mut no_pull: GossipService<NoopUpdateHandler> =
        GossipService::new("a".to_owned(), sampling, GossipConfig::new(true, false, 1000, UpdateExpirationMode::Never));
    no_pull.submit(b"mine".to_vec(), 0).unwrap();
    let (advertised, ask) = no_pull.on_header_message(&request);
    assert!(advertised.is_none());
    assert!(ask.is_some());
    let (advertised, ask) = no_pull.on_header_message(&response);
    assert!(advertised.is_none());
    assert!(ask.is_none());

    // without push the advertisement is empty and counts on no update
    no_push.start(Some(vec![Peer::new("b".to_owned())]), Box::new(NoopUpdateHandler));
    let (partner, sent) = no_push.gossip_cycle(1000).unwrap();
    assert_eq!(partner.address(), "b");
    assert!(sent.headers().is_empty());
}

#[test]
fn a_content_request_is_answered_with_what_is_active() {
    let mut service: GossipService<NoopUpdateHandler> = GossipService::new_with_defaults("a".to_owned());
    service.submit(b"one".to_vec(), 0).unwrap();
    service.submit(b"two".to_vec(), 0).unwrap();
    let request = ContentMessage::new_request(
        "b".to_owned(),
        vec![
            (digest(b"two"), Vec::new()),
            (digest(b"none"), Vec::new()),
            (digest(b"one"), Vec::new()),
            (digest(b"two"), Vec::new()),
        ],
    );
    let (response, delivered) = service.on_content_message(request, 0);
    assert!(delivered.is_empty());
    let response = response.unwrap();
    assert_eq!(response.sender(), "a");
    assert_eq!(*response.message_type(), MessageType::Response);
    assert_eq!(response.content(), vec![(digest(b"two"), b"two".to_vec()), (digest(b"one"), b"one".to_vec())]);

    let nothing = ContentMessage::new_request("b".to_owned(), vec![(digest(b"none"), Vec::new())]);
    let (response, _) = service.on_content_message(nothing, 0);
    assert!(response.is_none());
}

#[test]
fn a_content_response_is_checked_and_delivered_once() {
    let seen: Seen = Arc::new(Mutex::new(Vec::new()));
    let mut service = GossipService::new_with_defaults("a".to_owned());
    service.start(None, Box::new(Recorder { seen: seen.clone() }));
    service.submit(b"mine".to_vec(), 0).unwrap();
    let response = ContentMessage::new_response(
        "b".to_owned(),
        vec![
            (digest(b"one"), b"one".to_vec()),
            (digest(b"mine"), b"mine".to_vec()),
            (digest(b"two"), b"forged".to_vec()),
            (digest(b"one"), b"one".to_vec()),
            ("not a digest".to_owned(), b"three".to_vec()),
            (digest(b"four"), b"four".to_vec()),
        ],
    );
    let (reply, admitted) = service.on_content_message(response, 0);
    assert!(reply.is_none());
    assert_eq!(digests(&admitted), vec![digest(b"one"), digest(b"four")]);
    assert_eq!(admitted[0].content(), &b"one".to_vec());
    assert_eq!(admitted[1].content(), &b"four".to_vec());
    for update in admitted {
        service.update_handler().unwrap().on_update(update);
    }
    assert_eq!(
        *seen.lock().unwrap(),
        vec![(digest(b"one"), b"one".to_vec()), (digest(b"four"), b"four".to_vec())]
    );
    assert!(service.is_active(b"one".to_vec()));
    assert!(service.is_active(b"four".to_vec()));
    assert!(!service.is_active(b"two".to_vec()));
    assert!(!service.is_active(b"forged".to_vec()));
    assert!(!service.is_active(b"three".to_vec()));

    // the same response again hands nothing over
    let again = ContentMessage::new_response("b".to_owned(), vec![(digest(b"one"), b"one".to_vec())]);
    let (_, admitted) = service.on_content_message(again, 0);
    assert!(admitted.is_empty());
    assert_eq!(seen.lock().unwrap().len(), 2);
}

#[test]
fn the_handler_is_the_one_that_was_put_in_place() {
    let seen: Seen = Arc::new(Mutex::new(Vec::new()));
    let mut service = GossipService::new_with_defaults("a".to_owned());
    assert!(service.update_handler().is_none());
    service.start(None, Box::new(Recorder { seen: seen.clone() }));
    service.update_handler().unwrap().on_update(Update::new(b"probe".to_vec()));
    assert_eq!(*seen.lock().unwrap(), vec![(digest(b"probe"), b"probe".to_vec())]);
    service.shutdown();
    assert!(service.update_handler().is_none());
}

#[test]
fn without_a_handler_updates_are_kept() {
    let mut service: GossipService<NoopUpdateHandler> = GossipService::new_with_defaults("a".to_owned());
    assert!(service.update_handler().is_none());
    let response = ContentMessage::new_response("b".to_owned(), vec![(digest(b"one"), b"one".to_vec())]);
    let (_, admitted) = service.on_content_message(response, 0);
    assert_eq!(digests(&admitted), vec![digest(b"one")]);
    assert!(service.is_active(b"one".to_vec()));
}

#[test]
fn a_digest_has_64_lower_case_hexadecimal_digits() {
    for text in ["", "hello", "MSGID 0"] {
        let update = Update::new(text.as_bytes().to_vec());
        assert_eq!(update.digest().len(), 64);
        assert!(update.digest().chars().all(|c| c.is_ascii_digit() || ('a'..='f').contains(&c)));
    }
}

#[test]
fn a_content_response_is_followed_by_the_sweep() {
    let gossip = GossipConfig::new(true, true, 1000, UpdateExpirationMode::MostRecent(1, 0));
    let mut service: GossipService<NoopUpdateHandler> =
        GossipService::new("a".to_owned(), PeerSamplingConfig::default(), gossip);
    service.start(None, Box::new(NoopUpdateHandler));
    service.submit(b"old".to_vec(), 1).unwrap();
    // a response without entries finds nothing to evict
    let (_, _) = service.on_content_message(ContentMessage::new_response("b".to_owned(), Vec::new()), 2);
    assert!(service.is_active(b"old".to_vec()));
    let response = ContentMessage::new_response("b".to_owned(), vec![(digest(b"new"), b"new".to_vec())]);
    let (_, admitted) = service.on_content_message(response, 2);
    assert_eq!(digests(&admitted), vec![digest(b"new")]);
    assert!(service.is_expired(b"old".to_vec()));
    assert!(service.is_active(b"new".to_vec()));
}

#[test]
fn a_content_response_without_entries_is_followed_by_the_sweep() {
    let gossip = GossipConfig::new(true, true, 1000, UpdateExpirationMode::DurationMillis(1500));
    let mut service: GossipService<NoopUpdateHandler> =
        GossipService::new("a".to_owned(), PeerSamplingConfig::default(), gossip);
    service.submit(b"old".to_vec(), 0).unwrap();
    // a request sweeps nothing
    let (_, _) = service.on_content_message(ContentMessage::new_request("b".to_owned(), Vec::new()), 2000);
    assert!(service.is_active(b"old".to_vec()));
    let (reply, admitted) = service.on_content_message(ContentMessage::new_response("b".to_owned(), Vec::new()), 2000);
    assert!(reply.is_none());
    assert!(admitted.is_empty());
    assert!(service.is_expired(b"old".to_vec()));
    assert!(!service.is_active(b"old".to_vec()));
}

#[test]
fn a_content_message_holds_each_digest_once() {
    let message = ContentMessage::new_response(
        "s".to_owned(),
        vec![
            ("d1".to_owned(), vec![1u8]),
            ("d2".to_owned(), vec![2u8]),
            ("d1".to_owned(), vec![3u8]),
            ("d2".to_owned(), vec![2u8]),
        ],
    );
    assert_eq!(message.len(), 2);
    assert_eq!(message.content(), vec![("d1".to_owned(), vec![1u8]), ("d2".to_owned(), vec![2u8])]);
}
