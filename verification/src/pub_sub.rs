//! The in-memory publish/subscribe registry: named channels, each with the
//! senders of its current subscribers, kept in a slab under integer keys.

use vstd::prelude::*;
use futures::channel::mpsc::{UnboundedReceiver, UnboundedSender};
use slab::Slab;

verus! {

/// A message of the search channels: a list of result or suggestion texts.
pub type Message = Vec<String>;

#[verifier::external_type_specification]
#[verifier::external_body]
#[verifier::reject_recursive_types(T)]
pub struct ExSlab<T>(Slab<T>);

#[verifier::external_type_specification]
#[verifier::external_body]
#[verifier::reject_recursive_types(T)]
pub struct ExUnboundedSender<T>(UnboundedSender<T>);

#[verifier::external_type_specification]
#[verifier::external_body]
#[verifier::reject_recursive_types(T)]
pub struct ExUnboundedReceiver<T>(UnboundedReceiver<T>);

/// The subscribers of a channel: their senders, by key.
pub type Subscribers = Map<usize, UnboundedSender<Message>>;

/// The senders that a slab holds, by key.
pub uninterp spec fn slab_senders(s: Slab<UnboundedSender<Vec<String>>>) -> Map<usize, UnboundedSender<Vec<String>>>;

/// The messages handed to `start_send` through a sender, oldest first, each
/// as the texts it holds; whether the receiving side took them or not.
pub uninterp spec fn handed(s: UnboundedSender<Vec<String>>) -> Seq<Seq<Seq<char>>>;

/// `UnboundedSender::is_connected_to`: the sender sends to that receiver.
pub uninterp spec fn connected(s: UnboundedSender<Vec<String>>, r: UnboundedReceiver<Vec<String>>) -> bool;

/// `Slab::new`: a slab that holds nothing.
#[verifier::external_body]
fn slab_new() -> (s: Slab<UnboundedSender<Message>>)
    ensures
        slab_senders(s) == Subscribers::empty(),
{
    Slab::new()
}

/// `Slab::insert`: stores the value under the key of a vacant slot and gives
/// that key; the other entries stay.
#[verifier::external_body]
fn slab_insert(s: &mut Slab<UnboundedSender<Message>>, v: UnboundedSender<Message>) -> (k: usize)
    ensures
        !slab_senders(*old(s)).contains_key(k),
        slab_senders(*final(s)) == slab_senders(*old(s)).insert(k, v),
{
    s.insert(v)
}

/// `Slab::try_remove`: removes the value under `key`, if there is one, and
/// tells whether there was.
#[verifier::external_body]
fn slab_try_remove(s: &mut Slab<UnboundedSender<Message>>, key: usize) -> (removed: bool)
    ensures
        removed == slab_senders(*old(s)).contains_key(key),
        slab_senders(*final(s)) == slab_senders(*old(s)).remove(key),
{
    s.try_remove(key).is_some()
}

/// `Slab::iter`, keeping the keys: every key that holds a value, once, in
/// slot order.
#[verifier::external_body]
fn slab_key_list(s: &Slab<UnboundedSender<Message>>) -> (ks: Vec<usize>)
    ensures
        ks@.no_duplicates(),
        ks@.to_set() == slab_senders(*s).dom(),
{
    s.iter().map(|(k, _)| k).collect()
}

/// `Slab::index_mut`: the value under `key`; what the caller leaves there
/// is what the slab then holds under `key`.
#[verifier::external_body]
fn slab_entry(s: &mut Slab<UnboundedSender<Message>>, key: usize) -> (v: &mut UnboundedSender<Message>)
    requires
        slab_senders(*old(s)).contains_key(key),
    ensures
        *v == slab_senders(*old(s))[key],
        slab_senders(*final(s)) == slab_senders(*old(s)).insert(key, *final(v)),
{
    &mut s[key]
}

/// `UnboundedSender::start_send`: hands the message to the channel, which
/// the sender stays connected to; `false` when its receiver is gone. Which
/// of the two happens is not stated: it depends on the receiving side.
#[verifier::external_body]
fn start_send(sender: &mut UnboundedSender<Message>, msg: Message) -> (sent: bool)
    ensures
        handed(*final(sender)) == handed(*old(sender)).push(msg.deep_view()),
        forall|r: UnboundedReceiver<Message>| connected(*final(sender), r) == connected(*old(sender), r),
{
    sender.start_send(msg).is_ok()
}

/// `futures::channel::mpsc::unbounded`: a new channel's sending and
/// receiving halves, connected, with nothing handed yet.
#[verifier::external_body]
fn unbounded_channel() -> (halves: (UnboundedSender<Message>, UnboundedReceiver<Message>))
    ensures
        handed(halves.0) == Seq::<Seq<Seq<char>>>::empty(),
        connected(halves.0, halves.1),
{
    futures::channel::mpsc::unbounded()
}

/// A copy of a message.
fn clone_message(m: &Message) -> (c: Message)
    ensures
        c.deep_view() == m.deep_view(),
{
    let c = m.clone();
    assert forall|i: int| 0 <= i < m@.len() implies c@[i] == m@[i] by {
        assert(vstd::pervasive::cloned::<String>(m@[i], c@[i]));
    }
    assert(c.deep_view() =~= m.deep_view());
    c
}

/// `b` is the sender `a` after one more message, `mv`, was handed through
/// it: its log grew by `mv` and it sends where `a` sent.
pub open spec fn stepped(a: UnboundedSender<Message>, b: UnboundedSender<Message>, mv: Seq<Seq<char>>) -> bool {
    &&& handed(b) == handed(a).push(mv)
    &&& forall|r: UnboundedReceiver<Message>| #[trigger] connected(b, r) == connected(a, r)
}

/// A named channel and the senders of its subscribers.
pub struct Channel {
    name: String,
    senders: Slab<UnboundedSender<Message>>,
}

impl Channel {
    /// The channel's name and the senders of its subscribers, by key.
    pub closed spec fn entry(&self) -> (Seq<char>, Map<usize, UnboundedSender<Message>>) {
        (self.name@, slab_senders(self.senders))
    }
}

/// The name and subscribers of each channel, in order of creation.
pub open spec fn entries_of(channels: Seq<Channel>) -> Seq<(Seq<char>, Subscribers)> {
    channels.map_values(|c: Channel| c.entry())
}

/// No two entries have the same name.
pub open spec fn names_distinct<V>(es: Seq<(Seq<char>, V)>) -> bool {
    forall|i: int, j: int| 0 <= i < es.len() && 0 <= j < es.len() && i != j ==> es[i].0 != es[j].0
}

/// The value of each named entry.
pub open spec fn registry_of<V>(es: Seq<(Seq<char>, V)>) -> Map<Seq<char>, V> {
    Map::new(
        |n: Seq<char>| exists|i: int| 0 <= i < es.len() && es[i].0 == n,
        |n: Seq<char>| es[choose|i: int| 0 <= i < es.len() && es[i].0 == n].1,
    )
}

/// The subscribers of `channel`, none when it does not exist yet.
pub open spec fn subscribers_of(reg: Map<Seq<char>, Subscribers>, channel: Seq<char>) -> Subscribers {
    if reg.contains_key(channel) {
        reg[channel]
    } else {
        Map::<usize, UnboundedSender<Message>>::empty()
    }
}

/// A registry of named channels, each with the senders of its subscribers.
pub struct PubSub {
    channels: Vec<Channel>,
}

/// The registry seen from an entry: its name maps to its value.
proof fn lemma_registry_at<V>(es: Seq<(Seq<char>, V)>, i: int)
    requires
        names_distinct(es),
        0 <= i < es.len(),
    ensures
        registry_of(es).contains_key(es[i].0),
        registry_of(es)[es[i].0] == es[i].1,
{
    let n = es[i].0;
    assert(registry_of(es).dom().contains(n));
    let j = choose|j: int| 0 <= j < es.len() && es[j].0 == n;
    assert(j == i);
}

impl View for PubSub {
    type V = Map<Seq<char>, Subscribers>;

    /// The subscribers of each channel, by name and key.
    closed spec fn view(&self) -> Map<Seq<char>, Subscribers> {
        registry_of(entries_of(self.channels@))
    }
}

/// A new entry with a fresh name extends the registry by that name.
proof fn lemma_registry_push<V>(es: Seq<(Seq<char>, V)>, n: Seq<char>, ks: V)
    requires
        names_distinct(es),
        forall|i: int| 0 <= i < es.len() ==> es[i].0 != n,
    ensures
        names_distinct(es.push((n, ks))),
        registry_of(es.push((n, ks))) == registry_of(es).insert(n, ks),
{
    let es2 = es.push((n, ks));
    assert(names_distinct(es2));
    lemma_registry_at(es2, es.len() as int);
    assert forall|m: Seq<char>| #[trigger] registry_of(es2).contains_key(m) <==> registry_of(es).insert(n, ks).contains_key(m) by {
        if registry_of(es).contains_key(m) {
            let i = choose|i: int| 0 <= i < es.len() && es[i].0 == m;
            assert(es2[i].0 == m);
        }
        if registry_of(es2).contains_key(m) && m != n {
            let i = choose|i: int| 0 <= i < es2.len() && es2[i].0 == m;
            assert(es[i].0 == m);
        }
    }
    assert forall|m: Seq<char>| #[trigger] registry_of(es).contains_key(m) && m != n implies registry_of(es2)[m] == registry_of(es)[m] by {
        let i = choose|i: int| 0 <= i < es.len() && es[i].0 == m;
        lemma_registry_at(es, i);
        assert(es2[i] == es[i]);
        lemma_registry_at(es2, i);
    }
    assert(registry_of(es2) =~= registry_of(es).insert(n, ks));
}

/// Changing the value of one entry changes the registry at that name only.
proof fn lemma_registry_update<V>(es: Seq<(Seq<char>, V)>, i: int, ks: V)
    requires
        names_distinct(es),
        0 <= i < es.len(),
    ensures
        names_distinct(es.update(i, (es[i].0, ks))),
        registry_of(es.update(i, (es[i].0, ks))) == registry_of(es).insert(es[i].0, ks),
{
    let es2 = es.update(i, (es[i].0, ks));
    let n = es[i].0;
    assert(names_distinct(es2));
    lemma_registry_at(es2, i);
    assert forall|m: Seq<char>| #[trigger] registry_of(es2).contains_key(m) <==> registry_of(es).insert(n, ks).contains_key(m) by {
        if registry_of(es).contains_key(m) {
            let j = choose|j: int| 0 <= j < es.len() && es[j].0 == m;
            assert(es2[j].0 == m);
        }
        if registry_of(es2).contains_key(m) {
            let j = choose|j: int| 0 <= j < es2.len() && es2[j].0 == m;
            assert(es[j].0 == m);
        }
    }
    assert forall|m: Seq<char>| #[trigger] registry_of(es).contains_key(m) && m != n implies registry_of(es2)[m] == registry_of(es)[m] by {
        let j = choose|j: int| 0 <= j < es.len() && es[j].0 == m;
        lemma_registry_at(es, j);
        assert(es2[j] == es[j]);
        lemma_registry_at(es2, j);
    }
    assert(registry_of(es2) =~= registry_of(es).insert(n, ks));
}

/// The position of the channel called `name`, if there is one.
fn find_channel(channels: &Vec<Channel>, name: &str) -> (r: Option<usize>)
    ensures
        match r {
            Some(i) => i < channels@.len() && entries_of(channels@)[i as int].0 == name@,
            None => forall|i: int| 0 <= i < channels@.len() ==> #[trigger] entries_of(channels@)[i].0 != name@,
        },
{
    let wanted = name.to_owned();
    let mut i: usize = 0;
    while i < channels.len()
        invariant
            wanted@ == name@,
            i <= channels@.len(),
            forall|j: int| 0 <= j < i ==> #[trigger] entries_of(channels@)[j].0 != name@,
        decreases channels.len() - i,
    {
        if channels[i].name == wanted {
            return Some(i);
        }
        i += 1;
    }
    None
}

/// The position of the channel called `name`, which is created, with no
/// subscribers, when it does not exist yet.
fn channel_position(channels: &mut Vec<Channel>, name: &str) -> (i: usize)
    requires
        names_distinct(entries_of(old(channels)@)),
    ensures
        names_distinct(entries_of(final(channels)@)),
        i < final(channels)@.len(),
        entries_of(final(channels)@)[i as int].0 == name@,
        registry_of(entries_of(final(channels)@)) == registry_of(entries_of(old(channels)@)).insert(
            name@,
            subscribers_of(registry_of(entries_of(old(channels)@)), name@),
        ),
        entries_of(final(channels)@)[i as int].1 == subscribers_of(registry_of(entries_of(old(channels)@)), name@),
{
    let ghost es = entries_of(channels@);
    match find_channel(channels, name) {
        Some(i) => {
            proof {
                lemma_registry_at(es, i as int);
                assert(registry_of(es).insert(name@, registry_of(es)[name@]) =~= registry_of(es));
            }
            i
        }
        None => {
            let ch = Channel { name: name.to_owned(), senders: slab_new() };
            channels.push(ch);
            proof {
                assert(entries_of(channels@) =~= es.push((name@, Map::<usize, UnboundedSender<Message>>::empty())));
                lemma_registry_push(es, name@, Map::<usize, UnboundedSender<Message>>::empty());
                assert(!registry_of(es).contains_key(name@));
            }
            channels.len() - 1
        }
    }
}

/// Putting back, at `i`, a channel with the same name updates the registry
/// at that name only.
proof fn lemma_replace_channel(old_cs: Seq<Channel>, i: int, ch: Channel)
    requires
        names_distinct(entries_of(old_cs)),
        0 <= i < old_cs.len(),
        ch.entry().0 == old_cs[i].entry().0,
    ensures
        names_distinct(entries_of(old_cs.remove(i).insert(i, ch))),
        registry_of(entries_of(old_cs.remove(i).insert(i, ch)))
            == registry_of(entries_of(old_cs)).insert(old_cs[i].entry().0, ch.entry().1),
{
    let es = entries_of(old_cs);
    assert(entries_of(old_cs.remove(i).insert(i, ch)) =~= es.update(i, (es[i].0, ch.entry().1)));
    lemma_registry_update(es, i, ch.entry().1);
}

impl PubSub {
    #[verifier::type_invariant]
    closed spec fn channel_names_distinct(&self) -> bool {
        names_distinct(entries_of(self.channels@))
    }

    /// A registry with no channels.
    pub fn new() -> (p: PubSub)
        ensures
            p@ == Map::<Seq<char>, Subscribers>::empty(),
    {
        let p = PubSub { channels: Vec::new() };
        assert(p@ =~= Map::<Seq<char>, Subscribers>::empty());
        p
    }

    /// Hands a copy of the message to every subscriber of `channel`, creating
    /// the channel when it does not exist yet; no other channel changes.
    /// Gives the keys of the subscribers it was handed to, each once.
    pub fn publish(&mut self, channel: &str, msg: Message) -> (keys: Vec<usize>)
        ensures
            final(self)@ == old(self)@.insert(channel@, final(self)@[channel@]),
            final(self)@[channel@].dom() == subscribers_of(old(self)@, channel@).dom(),
            forall|k: usize| #[trigger] subscribers_of(old(self)@, channel@).contains_key(k) ==> stepped(
                subscribers_of(old(self)@, channel@)[k],
                final(self)@[channel@][k],
                msg.deep_view(),
            ),
            keys@.no_duplicates(),
            keys@.to_set() == subscribers_of(old(self)@, channel@).dom(),
    {
        proof {
            use_type_invariant(&*self);
        }
        let ghost mv = msg.deep_view();
        let mut taken = PubSub { channels: Vec::new() };
        std::mem::swap(&mut taken, self);
        let PubSub { mut channels } = taken;
        let i = channel_position(&mut channels, channel);
        let ghost cs = channels@;
        let mut ch = channels.remove(i);
        assert(ch == cs[i as int]);
        let ghost orig = slab_senders(ch.senders);
        let keys = slab_key_list(&ch.senders);
        let mut k: usize = 0;
        while k < keys.len()
            invariant
                k <= keys@.len(),
                keys@.no_duplicates(),
                keys@.to_set() == orig.dom(),
                mv == msg.deep_view(),
                ch.name == cs[i as int].name,
                slab_senders(ch.senders).dom() == orig.dom(),
                forall|j: int| 0 <= j < k ==> stepped(
                    orig[#[trigger] keys@[j]],
                    slab_senders(ch.senders)[keys@[j]],
                    mv,
                ),
                forall|x: usize| #[trigger] orig.contains_key(x) && !keys@.take(k as int).contains(x)
                    ==> slab_senders(ch.senders)[x] == orig[x],
            decreases keys.len() - k,
        {
            let key = keys[k];
            let ghost before = slab_senders(ch.senders);
            assert(keys@.to_set().contains(keys@[k as int]));
            assert(!keys@.take(k as int).contains(key)) by {
                if keys@.take(k as int).contains(key) {
                    let j = choose|j: int| 0 <= j < k && keys@.take(k as int)[j] == key;
                    assert(keys@[j] == keys@[k as int]);
                }
            }
            assert(before[key] == orig[key]);
            let m = clone_message(&msg);
            let sender = slab_entry(&mut ch.senders, key);
            let _ = start_send(sender, m);
            proof {
                let after = slab_senders(ch.senders);
                assert(stepped(orig[key], after[key], mv));
                assert forall|j: int| 0 <= j < k + 1 implies stepped(
                    orig[#[trigger] keys@[j]],
                    after[keys@[j]],
                    mv,
                ) by {
                    if j < k {
                        assert(keys@[j] != key);
                    }
                }
                assert forall|x: usize| #[trigger] orig.contains_key(x) && !keys@.take(k + 1).contains(x)
                    implies after[x] == orig[x] by {
                    assert(keys@.take(k + 1)[k as int] == key);
                    assert(x != key);
                    assert(!keys@.take(k as int).contains(x)) by {
                        if keys@.take(k as int).contains(x) {
                            let j = choose|j: int| 0 <= j < k && keys@.take(k as int)[j] == x;
                            assert(keys@.take(k + 1)[j] == x);
                        }
                    }
                }
                assert(after.dom() =~= orig.dom());
            }
            k += 1;
        }
        let ghost fresh = slab_senders(ch.senders);
        proof {
            assert forall|x: usize| #[trigger] orig.contains_key(x) implies stepped(orig[x], fresh[x], mv) by {
                assert(keys@.to_set().contains(x));
                let j = choose|j: int| 0 <= j < keys@.len() && keys@[j] == x;
            }
        }
        channels.insert(i, ch);
        proof {
            lemma_replace_channel(cs, i as int, ch);
            let old_reg = registry_of(entries_of(cs));
            assert(old_reg.insert(channel@, fresh)[channel@] == fresh);
        }
        *self = PubSub { channels };
        keys
    }

    /// Adds a subscriber to `channel`, creating the channel when it does not
    /// exist yet; no other channel changes. Gives the subscriber's key,
    /// which no other subscriber of the channel has, and the receiving half
    /// of the new sender stored under that key, to which nothing has been
    /// handed yet.
    pub fn subscribe(&mut self, channel: &str) -> (r: (usize, UnboundedReceiver<Message>))
        ensures
            !subscribers_of(old(self)@, channel@).contains_key(r.0),
            final(self)@ == old(self)@.insert(
                channel@,
                subscribers_of(old(self)@, channel@).insert(r.0, final(self)@[channel@][r.0]),
            ),
            connected(final(self)@[channel@][r.0], r.1),
            handed(final(self)@[channel@][r.0]) == Seq::<Seq<Seq<char>>>::empty(),
    {
        proof {
            use_type_invariant(&*self);
        }
        let mut taken = PubSub { channels: Vec::new() };
        std::mem::swap(&mut taken, self);
        let PubSub { mut channels } = taken;
        let i = channel_position(&mut channels, channel);
        let ghost cs = channels@;
        let mut ch = channels.remove(i);
        assert(ch == cs[i as int]);
        let (tx, rx) = unbounded_channel();
        let ghost txv = tx;
        let key = slab_insert(&mut ch.senders, tx);
        channels.insert(i, ch);
        proof {
            lemma_replace_channel(cs, i as int, ch);
            let old_reg = registry_of(entries_of(cs));
            assert(old_reg.insert(channel@, slab_senders(ch.senders))[channel@][key] == txv);
        }
        *self = PubSub { channels };
        (key, rx)
    }

    /// Removes the subscriber with the given key from `channel`, creating the
    /// channel when it does not exist yet; no other subscriber or channel
    /// changes. Tells whether the channel had such a subscriber.
    pub fn unsubscribe(&mut self, channel: &str, key: usize) -> (removed: bool)
        ensures
            removed == subscribers_of(old(self)@, channel@).contains_key(key),
            final(self)@ == old(self)@.insert(channel@, subscribers_of(old(self)@, channel@).remove(key)),
    {
        proof {
            use_type_invariant(&*self);
        }
        let mut taken = PubSub { channels: Vec::new() };
        std::mem::swap(&mut taken, self);
        let PubSub { mut channels } = taken;
        let i = channel_position(&mut channels, channel);
        let ghost cs = channels@;
        let mut ch = channels.remove(i);
        assert(ch == cs[i as int]);
        let removed = slab_try_remove(&mut ch.senders, key);
        channels.insert(i, ch);
        proof {
            lemma_replace_channel(cs, i as int, ch);
        }
        *self = PubSub { channels };
        removed
    }
}

/// Law: removing a subscriber just added to a channel gives back the
/// channel's former subscribers; the registry differs from the former one
/// at most in that the channel now exists.
pub proof fn lemma_subscribe_unsubscribe(
    reg: Map<Seq<char>, Subscribers>,
    channel: Seq<char>,
    key: usize,
    sender: UnboundedSender<Message>,
)
    requires
        !subscribers_of(reg, channel).contains_key(key),
    ensures
        ({
            let joined = reg.insert(channel, subscribers_of(reg, channel).insert(key, sender));
            &&& subscribers_of(joined, channel).contains_key(key)
            &&& joined.insert(channel, subscribers_of(joined, channel).remove(key))
                == reg.insert(channel, subscribers_of(reg, channel))
        }),
{
    let joined = reg.insert(channel, subscribers_of(reg, channel).insert(key, sender));
    assert(subscribers_of(joined, channel).remove(key) =~= subscribers_of(reg, channel));
    assert(joined.insert(channel, subscribers_of(joined, channel).remove(key))
        =~= reg.insert(channel, subscribers_of(reg, channel)));
}

/// Law: once a subscriber is removed from a channel, the channel no longer
/// holds it, so a later publish hands it nothing; every other subscriber of
/// the channel stays, with its sender as it was, and is handed to as before.
pub proof fn lemma_unsubscribed_is_skipped(
    reg: Map<Seq<char>, Subscribers>,
    channel: Seq<char>,
    key: usize,
    other: usize,
)
    ensures
        ({
            let after = reg.insert(channel, subscribers_of(reg, channel).remove(key));
            &&& !subscribers_of(after, channel).contains_key(key)
            &&& other != key && subscribers_of(reg, channel).contains_key(other) ==> {
                &&& subscribers_of(after, channel).contains_key(other)
                &&& subscribers_of(after, channel)[other] == subscribers_of(reg, channel)[other]
            }
        }),
{
}

/// Law: a change made to one channel is what a later look at that channel
/// finds, and the other channels keep their subscribers.
pub proof fn lemma_channel_change_is_local(
    reg: Map<Seq<char>, Subscribers>,
    channel: Seq<char>,
    subs: Subscribers,
    other: Seq<char>,
)
    ensures
        subscribers_of(reg.insert(channel, subs), channel) == subs,
        other != channel ==> subscribers_of(reg.insert(channel, subs), other) == subscribers_of(reg, other),
{
}

/// Law: what a subscriber has been handed is every message published on its
/// channel since it subscribed, in order. Here `logs[n]` is the log of the
/// subscriber's sender after the `n`-th publish on its channel, `logs[0]`
/// being the empty log it starts with.
pub proof fn lemma_handed_in_publish_order(logs: Seq<UnboundedSender<Message>>, msgs: Seq<Seq<Seq<char>>>)
    requires
        logs.len() == msgs.len() + 1,
        handed(logs[0]) == Seq::<Seq<Seq<char>>>::empty(),
        forall|n: int| 0 <= n < msgs.len() ==> #[trigger] stepped(logs[n], logs[n + 1], msgs[n]),
    ensures
        handed(logs.last()) == msgs,
    decreases msgs.len(),
{
    if msgs.len() > 0 {
        lemma_handed_in_publish_order(logs.drop_last(), msgs.drop_last());
        assert(stepped(logs[msgs.len() - 1], logs[msgs.len() as int], msgs[msgs.len() - 1]));
        assert(handed(logs.last()) =~= msgs);
    } else {
        assert(msgs =~= Seq::<Seq<Seq<char>>>::empty());
    }
}

/// The channel on which the results of a search method are published:
/// `results_{method}`.
pub fn results_channel(method: &str) -> (name: String)
    ensures
        name@ == "results_"@ + method@,
{
    let mut name = String::new();
    name.append("results_");
    name.append(method);
    name
}

} // verus!
