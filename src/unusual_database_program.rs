use vstd::prelude::*;

verus! {

/// The text that bytes give when each invalid UTF-8 sequence is replaced by
/// U+FFFD.
pub uninterp spec fn utf8_lossy_of(b: Seq<u8>) -> Seq<char>;

/// Relies on String::from_utf8_lossy: the bytes as text, invalid sequences
/// replaced.
#[verifier::external_body]
fn lossy_text(b: &[u8]) -> (r: String)
    ensures
        r@ == utf8_lossy_of(b@),
{
    String::from_utf8_lossy(b).to_string()
}

/// The key that clients cannot overwrite.
pub const VERSION_KEY: &'static str = "version";

/// What the store answers for its version key.
pub const VERSION_VALUE: &'static str = "luckywatcher's key-value store 1.0";

/// One datagram of the protocol.
#[derive(Debug, PartialEq, Eq)]
pub enum Message {
    /// `key=value`: set the key.
    Insert(String, String),
    /// `key`: ask for the key's value.
    Retrieve(String),
}

pub open spec fn is_first_eq(b: Seq<u8>, i: int) -> bool {
    0 <= i < b.len() && b[i] == 0x3du8 && forall|j: int| 0 <= j < i ==> b[j] != 0x3du8
}

/// Reads a datagram: up to the first `=` is the key and the rest the value;
/// without `=`, the whole datagram is a key to look up.
pub fn parse_message(buffer: &[u8]) -> (r: Message)
    ensures
        r is Retrieve <==> forall|j: int| 0 <= j < buffer@.len() ==> buffer@[j] != 0x3du8,
        r matches Message::Retrieve(k) ==> k@ == utf8_lossy_of(buffer@),
        r matches Message::Insert(k, v) ==> exists|i: int|
            is_first_eq(buffer@, i) && k@ == utf8_lossy_of(buffer@.subrange(0, i))
                && v@ == utf8_lossy_of(buffer@.subrange(i + 1, buffer@.len() as int)),
{
    let mut i: usize = 0;
    while i < buffer.len()
        invariant
            i <= buffer@.len(),
            forall|j: int| 0 <= j < i ==> buffer@[j] != 0x3du8,
        decreases buffer.len() - i,
    {
        if buffer[i] == 0x3du8 {
            let key = lossy_text(vstd::slice::slice_subrange(buffer, 0, i));
            let value = lossy_text(vstd::slice::slice_subrange(buffer, i + 1, buffer.len()));
            assert(is_first_eq(buffer@, i as int));
            return Message::Insert(key, value);
        }
        i += 1;
    }
    Message::Retrieve(lossy_text(buffer))
}

/// The map that entries give, a later entry for a key winning.
pub open spec fn as_map(e: Seq<(Seq<char>, Seq<char>)>) -> Map<Seq<char>, Seq<char>>
    decreases e.len(),
{
    if e.len() == 0 {
        Map::empty()
    } else {
        as_map(e.drop_last()).insert(e.last().0, e.last().1)
    }
}

pub open spec fn keys_unique(e: Seq<(Seq<char>, Seq<char>)>) -> bool {
    forall|i: int, j: int| 0 <= i < j < e.len() ==> e[i].0 != e[j].0
}

proof fn lemma_update_entry(e: Seq<(Seq<char>, Seq<char>)>, i: int, v: Seq<char>)
    requires
        keys_unique(e),
        0 <= i < e.len(),
    ensures
        as_map(e.update(i, (e[i].0, v))) == as_map(e).insert(e[i].0, v),
    decreases e.len(),
{
    let k = e[i].0;
    let n = e.update(i, (k, v));
    if i == e.len() - 1 {
        assert(n.drop_last() =~= e.drop_last());
        assert(as_map(n) =~= as_map(e).insert(k, v));
    } else {
        let rest = e.drop_last();
        assert(keys_unique(rest));
        lemma_update_entry(rest, i, v);
        assert(n.drop_last() =~= rest.update(i, (k, v)));
        assert(e.last().0 != k);
        assert(as_map(n) =~= as_map(e).insert(k, v));
    }
}

/// The answer to a lookup: `key=value`, the value empty where the key is not
/// set.
pub open spec fn retrieve_reply(m: Map<Seq<char>, Seq<char>>, key: Seq<char>) -> Seq<char> {
    key + "="@ + if m.contains_key(key) {
        m[key]
    } else {
        Seq::empty()
    }
}

/// The key-value store: a key at most once, in order of first insertion.
pub struct Store {
    entries: Vec<(String, String)>,
}

impl View for Store {
    type V = Map<Seq<char>, Seq<char>>;

    closed spec fn view(&self) -> Map<Seq<char>, Seq<char>> {
        as_map(self.entries_view())
    }
}

impl Store {
    closed spec fn entries_view(&self) -> Seq<(Seq<char>, Seq<char>)> {
        self.entries@.map_values(|p: (String, String)| (p.0@, p.1@))
    }

    pub closed spec fn wf(&self) -> bool {
        keys_unique(self.entries_view())
    }

    /// A store that holds its version and nothing else.
    pub fn new() -> (r: Store)
        ensures
            r.wf(),
            r@ == Map::<Seq<char>, Seq<char>>::empty().insert(VERSION_KEY@, VERSION_VALUE@),
    {
        let mut entries: Vec<(String, String)> = Vec::new();
        entries.push((String::from_str(VERSION_KEY), String::from_str(VERSION_VALUE)));
        let r = Store { entries };
        assert(r.entries_view().drop_last() =~= Seq::<(Seq<char>, Seq<char>)>::empty());
        assert(r.entries_view().last() == (VERSION_KEY@, VERSION_VALUE@));
        assert(as_map(Seq::<(Seq<char>, Seq<char>)>::empty()) == Map::<Seq<char>, Seq<char>>::empty());
        r
    }

    /// The value of a key, if it is set.
    pub fn get(&self, key: &String) -> (r: Option<String>)
        ensures
            r is None <==> !self@.contains_key(key@),
            r matches Some(v) ==> self@[key@] == v@,
    {
        let ghost e = self.entries_view();
        let mut found: Option<String> = None;
        let mut i: usize = 0;
        while i < self.entries.len()
            invariant
                i <= self.entries.len(),
                e == self.entries_view(),
                found is None <==> !as_map(e.subrange(0, i as int)).contains_key(key@),
                found matches Some(v) ==> as_map(e.subrange(0, i as int))[key@] == v@,
            decreases self.entries.len() - i,
        {
            assert(e.subrange(0, i + 1).drop_last() =~= e.subrange(0, i as int));
            if self.entries[i].0 == *key {
                found = Some(self.entries[i].1.clone());
            }
            i += 1;
        }
        assert(e.subrange(0, e.len() as int) =~= e);
        found
    }

    /// Sets a key, unless it is the version key.
    pub fn insert(&mut self, key: String, value: String)
        requires
            old(self).wf(),
        ensures
            final(self).wf(),
            key@ == VERSION_KEY@ ==> final(self)@ == old(self)@,
            key@ != VERSION_KEY@ ==> final(self)@ == old(self)@.insert(key@, value@),
    {
        let reserved = String::from_str(VERSION_KEY);
        if key == reserved {
            return;
        }
        let ghost e = self.entries_view();
        let mut i: usize = 0;
        while i < self.entries.len()
            invariant
                i <= self.entries.len(),
                e == self.entries_view(),
                e == old(self).entries_view(),
                keys_unique(e),
                key@ != VERSION_KEY@,
                forall|j: int| 0 <= j < i ==> e[j].0 != key@,
            decreases self.entries.len() - i,
        {
            if self.entries[i].0 == key {
                assert(e[i as int].0 == key@);
                self.entries.set(i, (key, value));
                proof {
                    assert(self.entries_view() =~= e.update(i as int, (e[i as int].0, value@)));
                    lemma_update_entry(e, i as int, value@);
                    let n = self.entries_view();
                    assert forall|a: int, b: int| 0 <= a < b < n.len() implies n[a].0 != n[b].0 by {
                        assert(e[a].0 != e[b].0);
                    }
                }
                return;
            }
            i += 1;
        }
        self.entries.push((key, value));
        proof {
            let n = self.entries_view();
            assert(n.drop_last() =~= e);
            assert forall|a: int, b: int| 0 <= a < b < n.len() implies n[a].0 != n[b].0 by {
                assert(n[a] == e[a]);
                if b < e.len() {
                    assert(n[b] == e[b]);
                    assert(e[a].0 != e[b].0);
                }
            }
        }
    }

    /// Carries out one request: sets a key, or answers `key=value`, the value
    /// empty where the key is not set.
    pub fn apply(&mut self, message: Message) -> (r: Option<String>)
        requires
            old(self).wf(),
        ensures
            final(self).wf(),
            message matches Message::Insert(k, v) ==> r is None && (if k@ == VERSION_KEY@ {
                final(self)@ == old(self)@
            } else {
                final(self)@ == old(self)@.insert(k@, v@)
            }),
            message matches Message::Retrieve(k) ==> final(self)@ == old(self)@
                && (r matches Some(reply) && reply@ == retrieve_reply(old(self)@, k@)),
    {
        match message {
            Message::Insert(k, v) => {
                self.insert(k, v);
                None
            },
            Message::Retrieve(k) => {
                let value = match self.get(&k) {
                    Some(v) => v,
                    None => String::new(),
                };
                let mut reply = k;
                reply.append("=");
                reply.append(value.as_str());
                Some(reply)
            },
        }
    }
}

} // verus!
