//! The messages of the gossip protocol: advertisements of digests, and
//! requests for and transfers of content.

use vstd::prelude::*;
use crate::message::{Message, MessageType, MESSAGE_PROTOCOL_CONTENT_MESSAGE, MESSAGE_PROTOCOL_HEADER_MESSAGE};

verus! {

/// What a [`HeaderMessage`] stands for in contracts.
#[verifier::ext_equal]
pub ghost struct HeaderMessageView {
    pub sender: Seq<char>,
    pub message_type: MessageType,
    pub headers: Seq<Seq<char>>,
}

/// Advertises the digests of the updates that are active at the sender.
#[derive(Debug)]
pub struct HeaderMessage {
    sender: String,
    message_type: MessageType,
    headers: Vec<String>,
}

impl View for HeaderMessage {
    type V = HeaderMessageView;

    closed spec fn view(&self) -> HeaderMessageView {
        HeaderMessageView {
            sender: self.sender@,
            message_type: self.message_type,
            headers: self.headers.deep_view(),
        }
    }
}

impl HeaderMessage {
    /// A request from `sender` that advertises nothing yet.
    pub fn new_request(sender: String) -> (message: HeaderMessage)
        ensures
            message@ == (HeaderMessageView {
                sender: sender@,
                message_type: MessageType::Request,
                headers: Seq::empty(),
            }),
    {
        Self::new(sender, MessageType::Request)
    }

    /// A response from `sender` that advertises nothing yet.
    pub fn new_response(sender: String) -> (message: HeaderMessage)
        ensures
            message@ == (HeaderMessageView {
                sender: sender@,
                message_type: MessageType::Response,
                headers: Seq::empty(),
            }),
    {
        Self::new(sender, MessageType::Response)
    }

    fn new(sender: String, message_type: MessageType) -> (message: HeaderMessage)
        ensures
            message@ == (HeaderMessageView { sender: sender@, message_type, headers: Seq::empty() }),
    {
        let message = HeaderMessage { sender, message_type, headers: Vec::new() };
        assert(message@.headers =~= Seq::empty());
        message
    }

    /// Replaces the digests that the message advertises.
    pub fn set_headers(&mut self, headers: Vec<String>)
        ensures
            final(self)@ == (HeaderMessageView { headers: headers.deep_view(), ..old(self)@ }),
    {
        self.headers = headers
    }

    /// The address of the sender.
    pub fn sender(&self) -> (sender: &str)
        ensures
            sender@ == self@.sender,
    {
        self.sender.as_str()
    }

    /// Whether the message is a request or a response.
    pub fn message_type(&self) -> (message_type: &MessageType)
        ensures
            *message_type == self@.message_type,
    {
        &self.message_type
    }

    /// Whether the message was sent by the node at `address`.
    pub fn is_from(&self, address: &String) -> (same: bool)
        ensures
            same == (self@.sender == address@),
    {
        self.sender == *address
    }

    /// The digests that the message advertises.
    pub fn headers(&self) -> (headers: &Vec<String>)
        ensures
            headers.deep_view() == self@.headers,
    {
        &self.headers
    }
}

impl Message for HeaderMessage {
    open spec fn spec_protocol(&self) -> u8 {
        MESSAGE_PROTOCOL_HEADER_MESSAGE
    }

    fn protocol(&self) -> (tag: u8) {
        MESSAGE_PROTOCOL_HEADER_MESSAGE
    }
}

/// The entries of a content message as they stand in contracts: digest and
/// content.
pub open spec fn content_view(content: Seq<(String, Vec<u8>)>) -> Seq<(Seq<char>, Seq<u8>)> {
    Seq::new(content.len(), |i: int| (content[i].0@, content[i].1@))
}

/// The digests of the entries of a content message, in order.
pub open spec fn keys_of(content: Seq<(Seq<char>, Seq<u8>)>) -> Seq<Seq<char>> {
    Seq::new(content.len(), |i: int| content[i].0)
}

/// The entries with one entry for each digest: the first that has it, in
/// the order in which the digests first occur.
pub open spec fn unique_entries(content: Seq<(Seq<char>, Seq<u8>)>) -> Seq<(Seq<char>, Seq<u8>)>
    decreases content.len(),
{
    if content.len() == 0 {
        Seq::empty()
    } else {
        let before = unique_entries(content.drop_last());
        if keys_of(before).contains(content.last().0) {
            before
        } else {
            before.push(content.last())
        }
    }
}

/// Among the unique entries no digest occurs twice, every one of them is an
/// entry of the list, and where no digest occurs twice in the list they are
/// the list itself.
pub proof fn lemma_unique_entries(content: Seq<(Seq<char>, Seq<u8>)>)
    ensures
        distinct_keys(unique_entries(content)),
        forall|i: int| 0 <= i < unique_entries(content).len() ==> content.contains(#[trigger] unique_entries(content)[i]),
        forall|i: int| 0 <= i < content.len() ==> keys_of(unique_entries(content)).contains((#[trigger] content[i]).0),
        distinct_keys(content) ==> unique_entries(content) == content,
    decreases content.len(),
{
    if content.len() > 0 {
        let front = content.drop_last();
        lemma_unique_entries(front);
        let before = unique_entries(front);
        let unique = unique_entries(content);
        assert forall|i: int, j: int| 0 <= i < j < unique.len() implies unique[i].0 != unique[j].0 by {
            if j == before.len() {
                assert(keys_of(before)[i] == unique[i].0);
            }
        }
        assert forall|i: int| 0 <= i < unique.len() implies content.contains(#[trigger] unique[i]) by {
            if i < before.len() {
                assert(front.contains(before[i]));
                let x = choose|x: int| 0 <= x < front.len() && front[x] == before[i];
                assert(content[x] == unique[i]);
            } else {
                assert(content[content.len() - 1] == unique[i]);
            }
        }
        assert forall|i: int| 0 <= i < content.len() implies keys_of(unique).contains((#[trigger] content[i]).0) by {
            if i < front.len() {
                assert(front[i] == content[i]);
                let x = choose|x: int| 0 <= x < before.len() && keys_of(before)[x] == front[i].0;
                assert(keys_of(unique)[x] == content[i].0);
            } else if keys_of(before).contains(content.last().0) {
                let x = choose|x: int| 0 <= x < before.len() && keys_of(before)[x] == content.last().0;
                assert(keys_of(unique)[x] == content[i].0);
            } else {
                assert(keys_of(unique)[unique.len() - 1] == content[i].0);
            }
        }
        if distinct_keys(content) {
            assert(distinct_keys(front)) by {
                assert forall|i: int, j: int| 0 <= i < j < front.len() implies front[i].0 != front[j].0 by {
                    assert(front[i] == content[i] && front[j] == content[j]);
                }
            }
            if keys_of(before).contains(content.last().0) {
                let x = choose|x: int| 0 <= x < before.len() && keys_of(before)[x] == content.last().0;
                assert(content[x].0 == content[content.len() - 1].0);
            }
            assert(unique =~= content);
        }
    } else {
        assert(unique_entries(content) =~= content);
    }
}

/// Whether an entry of `entries` has the digest `key`.
pub(crate) fn has_key(entries: &Vec<(String, Vec<u8>)>, key: &String) -> (found: bool)
    ensures
        found == keys_of(content_view(entries@)).contains(key@),
{
    let mut i: usize = 0;
    while i < entries.len()
        invariant
            i <= entries.len(),
            forall|k: int| 0 <= k < i ==> keys_of(content_view(entries@))[k] != key@,
        decreases entries.len() - i,
    {
        if entries[i].0 == *key {
            assert(keys_of(content_view(entries@))[i as int] == key@);
            return true;
        }
        i += 1;
    }
    false
}

/// Whether no digest occurs twice among the entries.
pub open spec fn distinct_keys(content: Seq<(Seq<char>, Seq<u8>)>) -> bool {
    forall|i: int, j: int| 0 <= i < j < content.len() ==> content[i].0 != content[j].0
}

/// What a [`ContentMessage`] stands for in contracts.
#[verifier::ext_equal]
pub ghost struct ContentMessageView {
    pub sender: Seq<char>,
    pub message_type: MessageType,
    pub content: Seq<(Seq<char>, Seq<u8>)>,
}

/// Asks for the updates with the given digests (a request, in which the
/// content of each entry is empty) or carries them (a response). No digest
/// occurs twice among its entries.
#[derive(Debug)]
pub struct ContentMessage {
    sender: String,
    message_type: MessageType,
    content: Vec<(String, Vec<u8>)>,
}

impl View for ContentMessage {
    type V = ContentMessageView;

    closed spec fn view(&self) -> ContentMessageView {
        ContentMessageView {
            sender: self.sender@,
            message_type: self.message_type,
            content: content_view(self.content@),
        }
    }
}

impl ContentMessage {
    #[verifier::type_invariant]
    spec fn one_entry_for_each_digest(self) -> bool {
        distinct_keys(content_view(self.content@))
    }

    /// A request from `sender` for the digests of `content`. Of entries with
    /// one digest the first is kept.
    pub fn new_request(sender: String, content: Vec<(String, Vec<u8>)>) -> (message: ContentMessage)
        ensures
            message@ == (ContentMessageView {
                sender: sender@,
                message_type: MessageType::Request,
                content: unique_entries(content_view(content@)),
            }),
            distinct_keys(message@.content),
    {
        Self::new(sender, MessageType::Request, content)
    }

    /// A response from `sender` that carries `content`. Of entries with one
    /// digest the first is kept.
    pub fn new_response(sender: String, content: Vec<(String, Vec<u8>)>) -> (message: ContentMessage)
        ensures
            message@ == (ContentMessageView {
                sender: sender@,
                message_type: MessageType::Response,
                content: unique_entries(content_view(content@)),
            }),
            distinct_keys(message@.content),
    {
        Self::new(sender, MessageType::Response, content)
    }

    fn new(sender: String, message_type: MessageType, content: Vec<(String, Vec<u8>)>) -> (message:
        ContentMessage)
        ensures
            message@ == (ContentMessageView {
                sender: sender@,
                message_type,
                content: unique_entries(content_view(content@)),
            }),
            distinct_keys(message@.content),
    {
        let ghost all = content_view(content@);
        let ghost entries = content@;
        let mut unique: Vec<(String, Vec<u8>)> = Vec::new();
        assert(content_view(unique@) =~= unique_entries(all.take(0)));
        for entry in it: content
            invariant
                it.seq() == entries,
                all == content_view(entries),
                content_view(unique@) == unique_entries(all.take(it.index() as int)),
        {
            let ghost so_far = content_view(unique@);
            proof {
                assert(all.take(it.index() + 1).drop_last() =~= all.take(it.index() as int));
                assert(all.take(it.index() + 1).last() == all[it.index() as int]);
            }
            if !has_key(&unique, &entry.0) {
                unique.push(entry);
                assert(content_view(unique@) =~= so_far.push(all[it.index() as int]));
            }
        }
        proof {
            assert(all.take(all.len() as int) =~= all);
            lemma_unique_entries(all);
        }
        ContentMessage { sender, message_type, content: unique }
    }

    /// The address of the sender.
    pub fn sender(&self) -> (sender: &str)
        ensures
            sender@ == self@.sender,
    {
        self.sender.as_str()
    }

    /// Whether the message is a request or a response.
    pub fn message_type(&self) -> (message_type: &MessageType)
        ensures
            *message_type == self@.message_type,
    {
        &self.message_type
    }

    /// The number of entries, which is the number of digests, since no
    /// digest occurs twice.
    pub fn len(&self) -> (len: usize)
        ensures
            len == self@.content.len(),
            distinct_keys(self@.content),
    {
        proof {
            use_type_invariant(self);
        }
        self.content.len()
    }

    /// The entries; the message is given up for them, so that no content is
    /// copied. No digest occurs twice among them.
    pub fn content(self) -> (content: Vec<(String, Vec<u8>)>)
        ensures
            content_view(content@) == self@.content,
            distinct_keys(self@.content),
    {
        proof {
            use_type_invariant(&self);
        }
        self.content
    }
}

impl Message for ContentMessage {
    open spec fn spec_protocol(&self) -> u8 {
        MESSAGE_PROTOCOL_CONTENT_MESSAGE
    }

    fn protocol(&self) -> (tag: u8) {
        MESSAGE_PROTOCOL_CONTENT_MESSAGE
    }
}

} // verus!
