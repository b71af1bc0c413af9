//! The reports that a node can post for monitoring: their text, not their
//! sending.

use vstd::prelude::*;
use vstd::string::StringExecFns;
use crate::text::push_char;

verus! {

/// Where and whether a node reports its view and its updates for monitoring.
#[derive(Debug)]
pub struct MonitoringConfig {
    enabled: bool,
    host: String,
    peer_path: String,
    update_path: String,
}

/// `text` between double quotes. Nothing in it is escaped.
pub open spec fn quoted(text: Seq<char>) -> Seq<char> {
    "\""@ + text + "\""@
}

/// The texts, each between double quotes, with commas between them.
pub open spec fn quoted_list(items: Seq<Seq<char>>) -> Seq<char>
    decreases items.len(),
{
    if items.len() == 0 {
        Seq::empty()
    } else if items.len() == 1 {
        quoted(items.last())
    } else {
        quoted_list(items.drop_last()) + ","@ + quoted(items.last())
    }
}

/// The report of a node as JSON: its identifier, its peers, and its updates.
pub open spec fn report(id: Seq<char>, peers: Seq<Seq<char>>, messages: Seq<Seq<char>>) -> Seq<char> {
    "{\"id\":\""@ + id + "\",\"peers\":["@ + quoted_list(peers) + "],\"messages\":["@ + quoted_list(
        messages,
    ) + "]}"@
}

/// The decimal digit for a number below 10.
pub open spec fn decimal_digit(n: nat) -> char {
    (48 + n) as u8 as char
}

/// `n` in decimal digits.
pub open spec fn decimal(n: nat) -> Seq<char>
    decreases n,
{
    if n < 10 {
        seq![decimal_digit(n)]
    } else {
        decimal(n / 10).push(decimal_digit(n % 10))
    }
}

/// The text of the HTTP request that posts `json` to `path` at `host`.
pub open spec fn post_request_text(host: Seq<char>, path: Seq<char>, json: Seq<char>) -> Seq<char> {
    "POST "@ + path + " HTTP/1.1\r\nHost: "@ + host
        + "\r\nAccept: */*\r\nContent-Type: application/json; charset=UTF-8\r\nContent-Length: "@ + decimal(
        vstd::utf8::encode_utf8(json).len(),
    ) + "\r\nConnection: close\r\n\r\n"@ + json
}

/// Writes `n` in decimal digits.
pub fn to_decimal(n: usize) -> (text: String)
    ensures
        text@ == decimal(n as nat),
{
    let mut digits: Vec<u8> = Vec::new();
    let mut rest: usize = n;
    while rest >= 10
        invariant
            forall|k: int| 0 <= k < digits@.len() ==> digits@[k] < 10,
            decimal(n as nat) == decimal(rest as nat) + Seq::new(
                digits@.len(),
                |k: int| decimal_digit(digits@[digits@.len() - 1 - k] as nat),
            ),
        decreases rest,
    {
        let ghost before = digits@;
        let ghost tail = Seq::new(before.len(), |k: int| decimal_digit(before[before.len() - 1 - k] as nat));
        digits.push((rest % 10) as u8);
        proof {
            let after = Seq::new(digits@.len(), |k: int| decimal_digit(digits@[digits@.len() - 1 - k] as nat));
            assert(after =~= seq![decimal_digit((rest % 10) as nat)] + tail);
            assert(decimal(rest as nat) == decimal((rest / 10) as nat).push(decimal_digit((rest % 10) as nat)));
            assert(decimal((rest / 10) as nat).push(decimal_digit((rest % 10) as nat)) + tail =~= decimal(
                (rest / 10) as nat,
            ) + after);
        }
        rest = rest / 10;
    }
    let mut text = String::new();
    push_char(&mut text, (48 + rest as u8) as char);
    let ghost tail = Seq::new(digits@.len(), |k: int| decimal_digit(digits@[digits@.len() - 1 - k] as nat));
    let mut i: usize = digits.len();
    assert(text@ =~= decimal(rest as nat) + tail.take(0));
    while i > 0
        invariant
            i <= digits.len(),
            forall|k: int| 0 <= k < digits@.len() ==> digits@[k] < 10,
            tail == Seq::new(digits@.len(), |k: int| decimal_digit(digits@[digits@.len() - 1 - k] as nat)),
            text@ == decimal(rest as nat) + tail.take(digits@.len() - i),
        decreases i,
    {
        i -= 1;
        push_char(&mut text, (48 + digits[i]) as char);
        assert(text@ =~= decimal(rest as nat) + tail.take(digits@.len() - i));
    }
    assert(tail.take(digits@.len() as int) =~= tail);
    text
}

/// Appends the texts, each between double quotes, with commas between them.
fn append_quoted_list(text: &mut String, items: &Vec<String>)
    ensures
        final(text)@ == old(text)@ + quoted_list(items.deep_view()),
{
    let ghost all = items.deep_view();
    let mut i: usize = 0;
    assert(text@ =~= old(text)@ + quoted_list(all.take(0)));
    while i < items.len()
        invariant
            i <= items.len(),
            all == items.deep_view(),
            text@ == old(text)@ + quoted_list(all.take(i as int)),
        decreases items.len() - i,
    {
        let ghost so_far = text@;
        proof {
            assert(all.take(i + 1).drop_last() =~= all.take(i as int));
            assert(all.take(i + 1).last() == items@[i as int]@);
        }
        if i > 0 {
            text.append(",");
        }
        text.append("\"");
        text.append(items[i].as_str());
        text.append("\"");
        i += 1;
        proof {
            if i == 1 {
                assert(text@ =~= so_far + quoted(items@[i - 1]@));
                assert(quoted_list(all.take(0)) =~= Seq::<char>::empty());
            } else {
                assert(text@ =~= so_far + ","@ + quoted(items@[i - 1]@));
            }
            assert(text@ =~= old(text)@ + quoted_list(all.take(i as int)));
        }
    }
    assert(all.take(items.len() as int) =~= all);
}

/// Writes the report of the node `id` as JSON.
fn write_report(id: &str, peers: &Vec<String>, messages: &Vec<String>) -> (json: String)
    ensures
        json@ == report(id@, peers.deep_view(), messages.deep_view()),
{
    let mut json = String::new();
    json.append("{\"id\":\"");
    json.append(id);
    json.append("\",\"peers\":[");
    append_quoted_list(&mut json, peers);
    json.append("],\"messages\":[");
    append_quoted_list(&mut json, messages);
    json.append("]}");
    assert(json@ =~= report(id@, peers.deep_view(), messages.deep_view()));
    json
}

impl MonitoringConfig {
    /// A configuration that reports to `host`, the view at `peer_path` and
    /// the updates at `update_path`, if `enabled`.
    pub fn new(enabled: bool, host: String, peer_path: String, update_path: String) -> (config:
        MonitoringConfig)
        ensures
            config.enabled() == enabled,
            config.spec_host() == host@,
            config.spec_peer_path() == peer_path@,
            config.spec_update_path() == update_path@,
    {
        MonitoringConfig { enabled, host, peer_path, update_path }
    }

    /// Whether the node reports at all.
    #[verifier::when_used_as_spec(spec_enabled)]
    pub fn enabled(&self) -> (enabled: bool)
        ensures
            enabled == self.enabled(),
    {
        self.enabled
    }

    pub closed spec fn spec_enabled(&self) -> bool {
        self.enabled
    }

    /// The host that takes the reports.
    pub fn host(&self) -> (host: &str)
        ensures
            host@ == self.spec_host(),
    {
        self.host.as_str()
    }

    pub closed spec fn spec_host(&self) -> Seq<char> {
        self.host@
    }

    /// The path that takes the reports of the view.
    pub fn peer_path(&self) -> (path: &str)
        ensures
            path@ == self.spec_peer_path(),
    {
        self.peer_path.as_str()
    }

    pub closed spec fn spec_peer_path(&self) -> Seq<char> {
        self.peer_path@
    }

    /// The path that takes the reports of the updates.
    pub fn update_path(&self) -> (path: &str)
        ensures
            path@ == self.spec_update_path(),
    {
        self.update_path.as_str()
    }

    pub closed spec fn spec_update_path(&self) -> Seq<char> {
        self.update_path@
    }

    /// The report of the view of the node `pid`: its peers, and no updates.
    pub fn peer_data(&self, pid: &str, peers: &Vec<String>) -> (json: String)
        ensures
            json@ == report(pid@, peers.deep_view(), Seq::empty()),
    {
        let none: Vec<String> = Vec::new();
        assert(none.deep_view() =~= Seq::<Seq<char>>::empty());
        write_report(pid, peers, &none)
    }

    /// The report of the updates of the node `pid`: no peers, and the
    /// updates that it has received.
    pub fn update_data(&self, pid: &str, updates: &Vec<String>) -> (json: String)
        ensures
            json@ == report(pid@, Seq::empty(), updates.deep_view()),
    {
        let none: Vec<String> = Vec::new();
        assert(none.deep_view() =~= Seq::<Seq<char>>::empty());
        write_report(pid, &none, updates)
    }

    /// The HTTP request that posts `json` at `path` to the host of the
    /// configuration.
    pub fn post_request(&self, path: &str, json: &str) -> (request: String)
        ensures
            request@ == post_request_text(self.spec_host(), path@, json@),
    {
        let mut request = String::new();
        request.append("POST ");
        request.append(path);
        request.append(" HTTP/1.1\r\nHost: ");
        request.append(self.host.as_str());
        request.append("\r\nAccept: */*\r\nContent-Type: application/json; charset=UTF-8\r\nContent-Length: ");
        let length = to_decimal(json.as_bytes().len());
        request.append(length.as_str());
        request.append("\r\nConnection: close\r\n\r\n");
        request.append(json);
        assert(request@ =~= post_request_text(self.spec_host(), path@, json@));
        request
    }
}

impl Default for MonitoringConfig {
    fn default() -> (config: MonitoringConfig)
        ensures
            !config.enabled(),
            config.spec_host() == Seq::<char>::empty(),
            config.spec_peer_path() == Seq::<char>::empty(),
            config.spec_update_path() == Seq::<char>::empty(),
    {
        MonitoringConfig { enabled: false, host: String::new(), peer_path: String::new(), update_path: String::new() }
    }
}

} // verus!
