use vstd::prelude::*;

verus! {

/// Upper bound on the summed value byte-length of one read batch (10 MB).
pub const MAX_BATCH_BYTE_SIZE: usize = 10_000_000;

/// Operation-level failures, surfaced back to the issuing connection.
#[derive(Clone, Copy, Debug, PartialEq, Eq, Structural)]
pub enum QueueError {
    /// The named topic was never added.
    UnknownTopic,
    /// The named consumer group was never added.
    UnknownConsumer,
    /// The operation named a topic other than the one the consumer is bound to.
    TopicMismatch,
}

/// One immutable entry of a topic: a key, an opaque byte value, and the
/// Unix-seconds timestamp at which it was appended.
#[derive(Debug)]
pub struct QueueItem {
    pub key: String,
    pub value: Vec<u8>,
    pub created: u64,
}

/// Mathematical model of one item.
pub struct ItemModel {
    pub key: Seq<char>,
    pub value: Seq<u8>,
    pub created: u64,
}

impl View for QueueItem {
    type V = ItemModel;

    open spec fn view(&self) -> ItemModel {
        ItemModel { key: self.key@, value: self.value@, created: self.created }
    }
}

impl Clone for QueueItem {
    fn clone(&self) -> (r: Self)
        ensures
            r@ == self@,
    {
        QueueItem { key: self.key.clone(), value: self.value.clone(), created: self.created }
    }
}

/// Byte-for-byte comparison of two byte vectors.
pub fn bytes_eq(a: &Vec<u8>, b: &Vec<u8>) -> (r: bool)
    ensures
        r == (a@ == b@),
{
    if a.len() != b.len() {
        return false;
    }
    let mut i: usize = 0;
    while i < a.len()
        invariant
            a@.len() == b@.len(),
            0 <= i <= a@.len(),
            forall|j: int| 0 <= j < i ==> a@[j] == b@[j],
        decreases a@.len() - i,
    {
        if a[i] != b[i] {
            return false;
        }
        i = i + 1;
    }
    proof {
        assert(a@ =~= b@);
    }
    true
}

impl PartialEq for QueueItem {
    fn eq(&self, other: &Self) -> (r: bool) {
        self.key == other.key && self.created == other.created && bytes_eq(
            &self.value,
            &other.value,
        )
    }
}

impl vstd::std_specs::cmp::PartialEqSpecImpl for QueueItem {
    open spec fn obeys_eq_spec() -> bool {
        true
    }

    open spec fn eq_spec(&self, other: &Self) -> bool {
        self@ == other@
    }
}

/// The closed variant of requests a connection can address to the queue
/// engine: the only unit serialized on the wire.
#[derive(Debug)]
pub enum QueueOperation {
    AddTopic(String),
    AddConsumer(String, String, Option<usize>),
    AddItem(String, String, Vec<u8>),
    SetReadOffset(String, String, usize),
    ReadBatch(String, String, usize),
}

/// Mathematical model of one operation.
pub enum OpModel {
    AddTopic(Seq<char>),
    AddConsumer(Seq<char>, Seq<char>, Option<usize>),
    AddItem(Seq<char>, Seq<char>, Seq<u8>),
    SetReadOffset(Seq<char>, Seq<char>, usize),
    ReadBatch(Seq<char>, Seq<char>, usize),
}

impl View for QueueOperation {
    type V = OpModel;

    open spec fn view(&self) -> OpModel {
        match self {
            QueueOperation::AddTopic(t) => OpModel::AddTopic(t@),
            QueueOperation::AddConsumer(c, t, o) => OpModel::AddConsumer(c@, t@, *o),
            QueueOperation::AddItem(t, k, v) => OpModel::AddItem(t@, k@, v@),
            QueueOperation::SetReadOffset(c, t, o) => OpModel::SetReadOffset(c@, t@, *o),
            QueueOperation::ReadBatch(c, t, o) => OpModel::ReadBatch(c@, t@, *o),
        }
    }
}

fn opt_usize_eq(a: &Option<usize>, b: &Option<usize>) -> (r: bool)
    ensures
        r == (a == b),
{
    match (a, b) {
        (Some(x), Some(y)) => *x == *y,
        (None, None) => true,
        _ => false,
    }
}

fn op_eq(a: &QueueOperation, b: &QueueOperation) -> (r: bool)
    ensures
        r == (a@ == b@),
{
    match (a, b) {
        (QueueOperation::AddTopic(t1), QueueOperation::AddTopic(t2)) => {
            let e = *t1 == *t2;
            proof {
                if t1@ == t2@ {
                    assert(a@ == b@);
                }
            }
            e
        },
        (
            QueueOperation::AddConsumer(c1, t1, o1),
            QueueOperation::AddConsumer(c2, t2, o2),
        ) => {
            let e = *c1 == *c2 && *t1 == *t2 && opt_usize_eq(o1, o2);
            proof {
                if c1@ == c2@ && t1@ == t2@ && o1 == o2 {
                    assert(a@ == b@);
                }
            }
            e
        },
        (QueueOperation::AddItem(t1, k1, v1), QueueOperation::AddItem(t2, k2, v2)) => {
            let e = *t1 == *t2 && *k1 == *k2 && bytes_eq(v1, v2);
            proof {
                if t1@ == t2@ && k1@ == k2@ && v1@ == v2@ {
                    assert(a@ == b@);
                }
            }
            e
        },
        (
            QueueOperation::SetReadOffset(c1, t1, o1),
            QueueOperation::SetReadOffset(c2, t2, o2),
        ) => {
            let e = *c1 == *c2 && *t1 == *t2 && *o1 == *o2;
            proof {
                if c1@ == c2@ && t1@ == t2@ && o1 == o2 {
                    assert(a@ == b@);
                }
            }
            e
        },
        (
            QueueOperation::ReadBatch(c1, t1, o1),
            QueueOperation::ReadBatch(c2, t2, o2),
        ) => {
            let e = *c1 == *c2 && *t1 == *t2 && *o1 == *o2;
            proof {
                if c1@ == c2@ && t1@ == t2@ && o1 == o2 {
                    assert(a@ == b@);
                }
            }
            e
        },
        _ => {
            proof {
                assert(a@ != b@);
            }
            false
        },
    }
}

impl PartialEq for QueueOperation {
    fn eq(&self, other: &Self) -> (r: bool) {
        op_eq(self, other)
    }
}

impl vstd::std_specs::cmp::PartialEqSpecImpl for QueueOperation {
    open spec fn obeys_eq_spec() -> bool {
        true
    }

    open spec fn eq_spec(&self, other: &Self) -> bool {
        self@ == other@
    }
}

/// One named topic: an append-only ordered sequence of items.
struct Topic {
    name: String,
    items: Vec<QueueItem>,
}

/// One named consumer group: a cursor bound to a topic.
struct ConsumerGroup {
    name: String,
    topic: String,
    offset: usize,
}

/// Mathematical model of one consumer group.
pub struct ConsumerModel {
    pub topic: Seq<char>,
    pub offset: usize,
}

/// Mathematical model of the whole store: topic names to item sequences,
/// consumer names to their bindings.
pub struct StoreModel {
    pub topics: Map<Seq<char>, Seq<ItemModel>>,
    pub consumers: Map<Seq<char>, ConsumerModel>,
}

/// The models of a sequence of items.
pub open spec fn items_model(items: Seq<QueueItem>) -> Seq<ItemModel> {
    items.map_values(|it: QueueItem| it@)
}

spec fn topics_map(ts: Seq<Topic>) -> Map<Seq<char>, Seq<ItemModel>>
    decreases ts.len(),
{
    if ts.len() == 0 {
        Map::empty()
    } else {
        topics_map(ts.drop_last()).insert(ts.last().name@, items_model(ts.last().items@))
    }
}

spec fn consumers_map(cs: Seq<ConsumerGroup>) -> Map<Seq<char>, ConsumerModel>
    decreases cs.len(),
{
    if cs.len() == 0 {
        Map::empty()
    } else {
        consumers_map(cs.drop_last()).insert(
            cs.last().name@,
            ConsumerModel { topic: cs.last().topic@, offset: cs.last().offset },
        )
    }
}

spec fn topics_unique(ts: Seq<Topic>) -> bool {
    forall|i: int, j: int| 0 <= i < j < ts.len() ==> ts[i].name@ != ts[j].name@
}

spec fn consumers_unique(cs: Seq<ConsumerGroup>) -> bool {
    forall|i: int, j: int| 0 <= i < j < cs.len() ==> cs[i].name@ != cs[j].name@
}

/// The one authoritative in-memory queue state: all topics and all
/// consumer groups. Owned by a single serial executor for the life of
/// the process.
pub struct QueueServer {
    topics: Vec<Topic>,
    consumers: Vec<ConsumerGroup>,
}

impl View for QueueServer {
    type V = StoreModel;

    closed spec fn view(&self) -> StoreModel {
        StoreModel {
            topics: topics_map(self.topics@),
            consumers: consumers_map(self.consumers@),
        }
    }
}

proof fn lemma_topics_map_contains(ts: Seq<Topic>, k: Seq<char>)
    ensures
        topics_map(ts).contains_key(k) <==> (exists|i: int|
            0 <= i < ts.len() && ts[i].name@ == k),
    decreases ts.len(),
{
    if ts.len() > 0 {
        let prefix = ts.drop_last();
        lemma_topics_map_contains(prefix, k);
        assert(forall|i: int| 0 <= i < prefix.len() ==> prefix[i] == ts[i]);
        if topics_map(ts).contains_key(k) && ts.last().name@ == k {
            assert(ts[ts.len() - 1].name@ == k);
        }
        if exists|i: int| 0 <= i < ts.len() && ts[i].name@ == k {
            let i = choose|i: int| 0 <= i < ts.len() && ts[i].name@ == k;
            if i < ts.len() - 1 {
                assert(prefix[i].name@ == k);
            }
        }
    }
}

proof fn lemma_topics_map_get(ts: Seq<Topic>, i: int)
    requires
        topics_unique(ts),
        0 <= i < ts.len(),
    ensures
        topics_map(ts).contains_key(ts[i].name@),
        topics_map(ts)[ts[i].name@] == items_model(ts[i].items@),
    decreases ts.len(),
{
    let prefix = ts.drop_last();
    if i < ts.len() - 1 {
        assert(ts.last().name@ != ts[i].name@);
        assert(forall|a: int| 0 <= a < prefix.len() ==> prefix[a] == ts[a]);
        lemma_topics_map_get(prefix, i);
    }
}

proof fn lemma_topics_map_update(ts: Seq<Topic>, i: int, t: Topic)
    requires
        topics_unique(ts),
        0 <= i < ts.len(),
        t.name@ == ts[i].name@,
    ensures
        topics_map(ts.update(i, t)) == topics_map(ts).insert(t.name@, items_model(t.items@)),
        topics_unique(ts.update(i, t)),
    decreases ts.len(),
{
    let us = ts.update(i, t);
    assert(forall|a: int| 0 <= a < ts.len() && a != i ==> us[a] == ts[a]);
    assert forall|a: int, b: int| 0 <= a < b < us.len() implies us[a].name@ != us[b].name@ by {
        assert(us[a].name@ == ts[a].name@);
        assert(us[b].name@ == ts[b].name@);
    }
    if i == ts.len() - 1 {
        assert(us.drop_last() =~= ts.drop_last());
        assert(us.last() == t);
        assert(topics_map(us) =~= topics_map(ts).insert(t.name@, items_model(t.items@)));
    } else {
        let prefix = ts.drop_last();
        assert(forall|a: int| 0 <= a < prefix.len() ==> prefix[a] == ts[a]);
        lemma_topics_map_update(prefix, i, t);
        assert(us.drop_last() =~= prefix.update(i, t));
        assert(us.last() == ts.last());
        assert(t.name@ != ts.last().name@);
        assert(topics_map(us) =~= topics_map(ts).insert(t.name@, items_model(t.items@)));
    }
}

proof fn lemma_topics_map_push(ts: Seq<Topic>, t: Topic)
    requires
        topics_unique(ts),
        forall|i: int| 0 <= i < ts.len() ==> ts[i].name@ != t.name@,
    ensures
        topics_map(ts.push(t)) == topics_map(ts).insert(t.name@, items_model(t.items@)),
        topics_unique(ts.push(t)),
{
    assert(ts.push(t).drop_last() =~= ts);
    assert(ts.push(t).last() == t);
    assert(topics_map(ts.push(t)) =~= topics_map(ts).insert(t.name@, items_model(t.items@)));
}

proof fn lemma_consumers_map_contains(cs: Seq<ConsumerGroup>, k: Seq<char>)
    ensures
        consumers_map(cs).contains_key(k) <==> (exists|i: int|
            0 <= i < cs.len() && cs[i].name@ == k),
    decreases cs.len(),
{
    if cs.len() > 0 {
        let prefix = cs.drop_last();
        lemma_consumers_map_contains(prefix, k);
        assert(forall|i: int| 0 <= i < prefix.len() ==> prefix[i] == cs[i]);
        if consumers_map(cs).contains_key(k) && cs.last().name@ == k {
            assert(cs[cs.len() - 1].name@ == k);
        }
        if exists|i: int| 0 <= i < cs.len() && cs[i].name@ == k {
            let i = choose|i: int| 0 <= i < cs.len() && cs[i].name@ == k;
            if i < cs.len() - 1 {
                assert(prefix[i].name@ == k);
            }
        }
    }
}

proof fn lemma_consumers_map_get(cs: Seq<ConsumerGroup>, i: int)
    requires
        consumers_unique(cs),
        0 <= i < cs.len(),
    ensures
        consumers_map(cs).contains_key(cs[i].name@),
        consumers_map(cs)[cs[i].name@] == (ConsumerModel {
            topic: cs[i].topic@,
            offset: cs[i].offset,
        }),
    decreases cs.len(),
{
    let prefix = cs.drop_last();
    if i < cs.len() - 1 {
        assert(cs.last().name@ != cs[i].name@);
        assert(forall|a: int| 0 <= a < prefix.len() ==> prefix[a] == cs[a]);
        lemma_consumers_map_get(prefix, i);
    }
}

proof fn lemma_consumers_map_update(cs: Seq<ConsumerGroup>, i: int, c: ConsumerGroup)
    requires
        consumers_unique(cs),
        0 <= i < cs.len(),
        c.name@ == cs[i].name@,
    ensures
        consumers_map(cs.update(i, c)) == consumers_map(cs).insert(
            c.name@,
            ConsumerModel { topic: c.topic@, offset: c.offset },
        ),
        consumers_unique(cs.update(i, c)),
    decreases cs.len(),
{
    let us = cs.update(i, c);
    assert(forall|a: int| 0 <= a < cs.len() && a != i ==> us[a] == cs[a]);
    assert forall|a: int, b: int| 0 <= a < b < us.len() implies us[a].name@ != us[b].name@ by {
        assert(us[a].name@ == cs[a].name@);
        assert(us[b].name@ == cs[b].name@);
    }
    if i == cs.len() - 1 {
        assert(us.drop_last() =~= cs.drop_last());
        assert(us.last() == c);
        assert(consumers_map(us) =~= consumers_map(cs).insert(
            c.name@,
            ConsumerModel { topic: c.topic@, offset: c.offset },
        ));
    } else {
        let prefix = cs.drop_last();
        assert(forall|a: int| 0 <= a < prefix.len() ==> prefix[a] == cs[a]);
        lemma_consumers_map_update(prefix, i, c);
        assert(us.drop_last() =~= prefix.update(i, c));
        assert(us.last() == cs.last());
        assert(c.name@ != cs.last().name@);
        assert(consumers_map(us) =~= consumers_map(cs).insert(
            c.name@,
            ConsumerModel { topic: c.topic@, offset: c.offset },
        ));
    }
}

proof fn lemma_consumers_map_push(cs: Seq<ConsumerGroup>, c: ConsumerGroup)
    requires
        consumers_unique(cs),
        forall|i: int| 0 <= i < cs.len() ==> cs[i].name@ != c.name@,
    ensures
        consumers_map(cs.push(c)) == consumers_map(cs).insert(
            c.name@,
            ConsumerModel { topic: c.topic@, offset: c.offset },
        ),
        consumers_unique(cs.push(c)),
{
    assert(cs.push(c).drop_last() =~= cs);
    assert(cs.push(c).last() == c);
    assert(consumers_map(cs.push(c)) =~= consumers_map(cs).insert(
        c.name@,
        ConsumerModel { topic: c.topic@, offset: c.offset },
    ));
}

/// The start offset a new consumer group is given: the requested one,
/// or 0 when absent.
pub open spec fn start_offset(offset: Option<usize>) -> usize {
    match offset {
        Some(v) => v,
        None => 0,
    }
}

/// The batch that a scan of `items` from position `i` returns, having
/// already accumulated `used` value bytes: items are taken in order,
/// earliest position first, for as long as the running byte sum stays
/// below the cap when the next item is considered.
pub open spec fn spec_batch(items: Seq<ItemModel>, i: int, used: int) -> Seq<ItemModel>
    decreases items.len() - i,
{
    if i < 0 || i >= items.len() || used >= MAX_BATCH_BYTE_SIZE as int {
        Seq::empty()
    } else {
        seq![items[i]] + spec_batch(items, i + 1, used + items[i].value.len())
    }
}

/// Relies on std::time::SystemTime::now for the wall-clock stamp of an
/// appended item: seconds since the Unix epoch, 0 if the clock reads
/// earlier than the epoch. Nothing is assumed of the returned value.
#[verifier::external_body]
fn unix_now() -> u64 {
    match std::time::SystemTime::now().duration_since(std::time::UNIX_EPOCH) {
        Ok(d) => d.as_secs(),
        Err(_) => 0,
    }
}

fn find_topic(ts: &Vec<Topic>, name: &String) -> (r: Option<usize>)
    ensures
        match r {
            Some(i) => 0 <= i < ts@.len() && ts@[i as int].name@ == name@,
            None => forall|i: int| 0 <= i < ts@.len() ==> ts@[i].name@ != name@,
        },
{
    let mut i: usize = 0;
    while i < ts.len()
        invariant
            0 <= i <= ts@.len(),
            forall|j: int| 0 <= j < i ==> ts@[j].name@ != name@,
        decreases ts@.len() - i,
    {
        if ts[i].name == *name {
            return Some(i);
        }
        i = i + 1;
    }
    None
}

fn find_consumer(cs: &Vec<ConsumerGroup>, name: &String) -> (r: Option<usize>)
    ensures
        match r {
            Some(i) => 0 <= i < cs@.len() && cs@[i as int].name@ == name@,
            None => forall|i: int| 0 <= i < cs@.len() ==> cs@[i].name@ != name@,
        },
{
    let mut i: usize = 0;
    while i < cs.len()
        invariant
            0 <= i <= cs@.len(),
            forall|j: int| 0 <= j < i ==> cs@[j].name@ != name@,
        decreases cs@.len() - i,
    {
        if cs[i].name == *name {
            return Some(i);
        }
        i = i + 1;
    }
    None
}

impl QueueServer {
    /// Internal well-formedness: topic and consumer names are unique keys.
    pub closed spec fn inv(&self) -> bool {
        topics_unique(self.topics@) && consumers_unique(self.consumers@)
    }

    /// Creates an empty store: no topics, no consumer groups.
    pub fn new() -> (r: QueueServer)
        ensures
            r.inv(),
            r@.topics == Map::<Seq<char>, Seq<ItemModel>>::empty(),
            r@.consumers == Map::<Seq<char>, ConsumerModel>::empty(),
    {
        QueueServer { topics: Vec::new(), consumers: Vec::new() }
    }

    /// Creates an empty item sequence under `topic`. Re-adding an existing
    /// name resets it to empty: documented overwrite semantics.
    pub fn add_topic(&mut self, topic: String)
        requires
            old(self).inv(),
        ensures
            final(self).inv(),
            final(self)@.topics == old(self)@.topics.insert(topic@, Seq::<ItemModel>::empty()),
            final(self)@.consumers == old(self)@.consumers,
    {
        let idx = find_topic(&self.topics, &topic);
        let t = Topic { name: topic, items: Vec::new() };
        proof {
            assert(items_model(t.items@) =~= Seq::<ItemModel>::empty());
        }
        match idx {
            Some(i) => {
                proof {
                    lemma_topics_map_update(self.topics@, i as int, t);
                }
                self.topics[i] = t;
            },
            None => {
                proof {
                    lemma_topics_map_push(self.topics@, t);
                }
                self.topics.push(t);
            },
        }
    }

    /// Creates or overwrites the consumer group `consumer`, bound to
    /// `topic`, with the given start offset (0 when absent).
    pub fn add_consumer(&mut self, consumer: String, topic: String, offset: Option<usize>)
        requires
            old(self).inv(),
        ensures
            final(self).inv(),
            final(self)@.topics == old(self)@.topics,
            final(self)@.consumers == old(self)@.consumers.insert(
                consumer@,
                (ConsumerModel { topic: topic@, offset: start_offset(offset) }),
            ),
    {
        let off: usize = match offset {
            Some(v) => v,
            None => 0,
        };
        let idx = find_consumer(&self.consumers, &consumer);
        let c = ConsumerGroup { name: consumer, topic, offset: off };
        match idx {
            Some(i) => {
                proof {
                    lemma_consumers_map_update(self.consumers@, i as int, c);
                }
                self.consumers[i] = c;
            },
            None => {
                proof {
                    lemma_consumers_map_push(self.consumers@, c);
                }
                self.consumers.push(c);
            },
        }
    }

    /// Appends an item carrying the given creation time to `topic`;
    /// fails with `UnknownTopic`, leaving the store unchanged, when the
    /// topic was never added.
    pub fn add_item_at(&mut self, topic: String, key: String, value: Vec<u8>, created: u64) -> (r:
        Result<(), QueueError>)
        requires
            old(self).inv(),
        ensures
            final(self).inv(),
            r is Ok <==> old(self)@.topics.contains_key(topic@),
            r is Ok ==> final(self)@.topics == old(self)@.topics.insert(
                topic@,
                old(self)@.topics[topic@].push(
                    (ItemModel { key: key@, value: value@, created }),
                ),
            ) && final(self)@.consumers == old(self)@.consumers,
            r is Err ==> r == Err::<(), QueueError>(QueueError::UnknownTopic) && *final(self)
                == *old(self),
    {
        proof {
            lemma_topics_map_contains(self.topics@, topic@);
        }
        match find_topic(&self.topics, &topic) {
            Some(i) => {
                proof {
                    lemma_topics_map_get(self.topics@, i as int);
                }
                let ghost pre = self.topics@;
                let item = QueueItem { key, value, created };
                self.topics[i].items.push(item);
                proof {
                    let t_new = self.topics@[i as int];
                    assert(self.topics@ =~= pre.update(i as int, t_new));
                    lemma_topics_map_update(pre, i as int, t_new);
                    assert(items_model(t_new.items@) =~= items_model(pre[i as int].items@).push(
                        ItemModel { key: key@, value: value@, created },
                    ));
                }
                Ok(())
            },
            None => Err(QueueError::UnknownTopic),
        }
    }

    /// Appends an item stamped with the current wall-clock time to
    /// `topic`; fails with `UnknownTopic`, leaving the store unchanged,
    /// when the topic was never added.
    pub fn add_item(&mut self, topic: String, key: String, value: Vec<u8>) -> (r: Result<
        (),
        QueueError,
    >)
        requires
            old(self).inv(),
        ensures
            final(self).inv(),
            r is Ok <==> old(self)@.topics.contains_key(topic@),
            r is Ok ==> added_item(old(self)@, final(self)@, topic@, key@, value@),
            r is Err ==> r == Err::<(), QueueError>(QueueError::UnknownTopic) && *final(self)
                == *old(self),
    {
        let now = unix_now();
        let ghost k = key@;
        let ghost v = value@;
        let r = self.add_item_at(topic, key, value, now);
        proof {
            if r is Ok {
                assert(item_model_at(k, v, now) == (ItemModel { key: k, value: v, created: now }));
            }
        }
        r
    }

    /// Overwrites the stored offset of `consumer` after checking that the
    /// consumer exists and is bound to `topic`. The offset is not checked
    /// against the topic length: out-of-range offsets are legal and later
    /// yield empty reads.
    pub fn set_read_offset(&mut self, consumer: String, topic: String, offset: usize) -> (r: Result<
        (),
        QueueError,
    >)
        requires
            old(self).inv(),
        ensures
            final(self).inv(),
            match r {
                Ok(()) => {
                    &&& old(self)@.consumers.contains_key(consumer@)
                    &&& old(self)@.consumers[consumer@].topic == topic@
                    &&& final(self)@.consumers == old(self)@.consumers.insert(
                        consumer@,
                        (ConsumerModel { topic: topic@, offset }),
                    )
                    &&& final(self)@.topics == old(self)@.topics
                },
                Err(QueueError::UnknownConsumer) => !old(self)@.consumers.contains_key(consumer@)
                    && *final(self) == *old(self),
                Err(QueueError::TopicMismatch) => old(self)@.consumers.contains_key(consumer@)
                    && old(self)@.consumers[consumer@].topic != topic@ && *final(self) == *old(self),
                Err(QueueError::UnknownTopic) => false,
            },
    {
        proof {
            lemma_consumers_map_contains(self.consumers@, consumer@);
        }
        match find_consumer(&self.consumers, &consumer) {
            Some(i) => {
                proof {
                    lemma_consumers_map_get(self.consumers@, i as int);
                }
                if self.consumers[i].topic == topic {
                    let ghost pre = self.consumers@;
                    self.consumers[i].offset = offset;
                    proof {
                        let c_new = self.consumers@[i as int];
                        assert(self.consumers@ =~= pre.update(i as int, c_new));
                        lemma_consumers_map_update(pre, i as int, c_new);
                    }
                    Ok(())
                } else {
                    Err(QueueError::TopicMismatch)
                }
            },
            None => Err(QueueError::UnknownConsumer),
        }
    }

    /// Scans `topic` from `offset`, accumulating items in order until the
    /// sequence is exhausted or the running value byte sum reaches the
    /// cap. The consumer identity is accepted but not otherwise used, and
    /// the consumer's stored offset is neither read nor advanced: a
    /// documented quirk preserved as-is.
    pub fn read_batch(&mut self, _consumer: String, topic: String, offset: usize) -> (r: Result<
        Vec<QueueItem>,
        QueueError,
    >)
        requires
            old(self).inv(),
        ensures
            *final(self) == *old(self),
            match r {
                Ok(batch) => old(self)@.topics.contains_key(topic@) && items_model(batch@)
                    == spec_batch(old(self)@.topics[topic@], offset as int, 0),
                Err(e) => e == QueueError::UnknownTopic && !old(self)@.topics.contains_key(topic@),
            },
    {
        proof {
            lemma_topics_map_contains(self.topics@, topic@);
        }
        match find_topic(&self.topics, &topic) {
            Some(ti) => {
                proof {
                    lemma_topics_map_get(self.topics@, ti as int);
                }
                let items = &self.topics[ti].items;
                let ghost model = items_model(items@);
                let mut i: usize = offset;
                let mut batch_size: u128 = 0;
                let mut batch: Vec<QueueItem> = Vec::new();
                proof {
                    assert(items_model(batch@) =~= Seq::<ItemModel>::empty());
                }
                while i < items.len() && batch_size < MAX_BATCH_BYTE_SIZE as u128
                    invariant
                        offset <= i,
                        i <= items@.len() || i == offset,
                        batch_size <= MAX_BATCH_BYTE_SIZE as u128 + u64::MAX as u128,
                        model == items_model(items@),
                        items_model(batch@) + spec_batch(model, i as int, batch_size as int)
                            == spec_batch(model, offset as int, 0),
                    decreases items@.len() - i,
                {
                    let msg = &items[i];
                    let ghost pre_batch = batch@;
                    let ghost pre_size = batch_size as int;
                    batch.push(msg.clone());
                    batch_size = batch_size + msg.value.len() as u128;
                    i = i + 1;
                    proof {
                        assert(model[i - 1] == msg@);
                        assert(spec_batch(model, i - 1, pre_size) == seq![model[i - 1]]
                            + spec_batch(model, i as int, pre_size + model[i - 1].value.len()));
                        assert(items_model(batch@) =~= items_model(pre_batch).push(msg@));
                        assert(items_model(pre_batch) + spec_batch(model, i - 1, pre_size)
                            =~= items_model(batch@) + spec_batch(
                            model,
                            i as int,
                            batch_size as int,
                        ));
                    }
                }
                proof {
                    assert(spec_batch(model, i as int, batch_size as int)
                        =~= Seq::<ItemModel>::empty());
                    assert(items_model(batch@) =~= spec_batch(model, offset as int, 0));
                }
                Ok(batch)
            },
            None => Err(QueueError::UnknownTopic),
        }
    }

    /// Executes one operation against the store: the single dispatch point
    /// that the serial actor loop drives. Mutating operations yield
    /// `None`; a batch read yields `Some(batch)`; semantic failures are
    /// surfaced to the caller with the store unchanged.
    #[verifier::spinoff_prover]
    #[verifier::rlimit(50)]
    pub fn apply(&mut self, op: QueueOperation) -> (r: Result<Option<Vec<QueueItem>>, QueueError>)
        requires
            old(self).inv(),
        ensures
            final(self).inv(),
            op@ matches OpModel::AddTopic(t) ==> r is Ok && (r matches Ok(resp) ==> resp is None)
                && final(self)@.topics == old(self)@.topics.insert(t, Seq::<ItemModel>::empty())
                && final(self)@.consumers == old(self)@.consumers,
            op@ matches OpModel::AddConsumer(c, t, o) ==> r is Ok && (r matches Ok(resp)
                ==> resp is None) && final(self)@.topics == old(self)@.topics
                && final(self)@.consumers == old(self)@.consumers.insert(
                c,
                (ConsumerModel { topic: t, offset: start_offset(o) }),
            ),
            op@ matches OpModel::AddItem(t, k, v) ==> {
                &&& r is Ok <==> old(self)@.topics.contains_key(t)
                &&& (r matches Ok(resp) ==> resp is None)
                &&& r is Ok ==> added_item(old(self)@, final(self)@, t, k, v)
                &&& r is Err ==> r == Err::<Option<Vec<QueueItem>>, QueueError>(
                    QueueError::UnknownTopic,
                ) && *final(self) == *old(self)
            },
            op@ matches OpModel::SetReadOffset(c, t, o) ==> {
                &&& r is Ok <==> (old(self)@.consumers.contains_key(c) && old(
                    self,
                )@.consumers[c].topic == t)
                &&& (r matches Ok(resp) ==> resp is None)
                &&& r is Ok ==> final(self)@.consumers == old(self)@.consumers.insert(
                    c,
                    (ConsumerModel { topic: t, offset: o }),
                ) && final(self)@.topics == old(self)@.topics
                &&& r is Err ==> *final(self) == *old(self)
                &&& (r matches Err(e) ==> (e == QueueError::UnknownConsumer <==> !old(
                    self,
                )@.consumers.contains_key(c)) && (e == QueueError::TopicMismatch <==> old(
                    self,
                )@.consumers.contains_key(c) && old(self)@.consumers[c].topic != t))
            },
            op@ matches OpModel::ReadBatch(c, t, o) ==> {
                &&& *final(self) == *old(self)
                &&& r is Ok <==> old(self)@.topics.contains_key(t)
                &&& (r matches Ok(resp) ==> resp matches Some(batch) && items_model(batch@)
                    == spec_batch(old(self)@.topics[t], o as int, 0))
                &&& r is Err ==> r == Err::<Option<Vec<QueueItem>>, QueueError>(
                    QueueError::UnknownTopic,
                )
            },
    {
        match op {
            QueueOperation::AddTopic(topic) => {
                self.add_topic(topic);
                Ok(None)
            },
            QueueOperation::AddConsumer(consumer, topic, offset) => {
                self.add_consumer(consumer, topic, offset);
                Ok(None)
            },
            QueueOperation::AddItem(topic, key, value) => {
                match self.add_item(topic, key, value) {
                    Ok(()) => Ok(None),
                    Err(e) => Err(e),
                }
            },
            QueueOperation::SetReadOffset(consumer, topic, offset) => {
                match self.set_read_offset(consumer, topic, offset) {
                    Ok(()) => Ok(None),
                    Err(e) => Err(e),
                }
            },
            QueueOperation::ReadBatch(consumer, topic, offset) => {
                match self.read_batch(consumer, topic, offset) {
                    Ok(batch) => Ok(Some(batch)),
                    Err(e) => Err(e),
                }
            },
        }
    }
}

/// The model of an item built from a key, a value and a creation time.
pub open spec fn item_model_at(key: Seq<char>, value: Seq<u8>, created: u64) -> ItemModel {
    ItemModel { key, value, created }
}

/// Law: an executed append is isolated to its own topic. Interleaved
/// appends against distinct topics, executed one at a time by the
/// actor, therefore never lose or duplicate an item: each step leaves
/// every other topic's sequence, and all consumers, exactly as they
/// were.
pub proof fn lemma_added_item_isolates_topics(
    pre: StoreModel,
    post: StoreModel,
    topic: Seq<char>,
    key: Seq<char>,
    value: Seq<u8>,
    other: Seq<char>,
)
    requires
        added_item(pre, post, topic, key, value),
        other != topic,
    ensures
        post.topics.contains_key(other) == pre.topics.contains_key(other),
        pre.topics.contains_key(other) ==> post.topics[other] == pre.topics[other],
        post.consumers == pre.consumers,
        post.topics.contains_key(topic),
        post.topics[topic].len() == pre.topics[topic].len() + 1,
{
    let created = choose|created: u64|
        post.topics == pre.topics.insert(
            topic,
            pre.topics[topic].push(#[trigger] item_model_at(key, value, created)),
        );
    assert(post.topics == pre.topics.insert(
        topic,
        pre.topics[topic].push(item_model_at(key, value, created)),
    ));
}

/// The summed byte-length of the values of a sequence of items.
pub open spec fn sum_values(items: Seq<ItemModel>) -> int
    decreases items.len(),
{
    if items.len() == 0 {
        0
    } else {
        items.first().value.len() + sum_values(items.drop_first())
    }
}

proof fn lemma_sum_values_nonneg(items: Seq<ItemModel>)
    ensures
        sum_values(items) >= 0,
    decreases items.len(),
{
    if items.len() > 0 {
        lemma_sum_values_nonneg(items.drop_first());
    }
}

proof fn lemma_sum_values_skip(items: Seq<ItemModel>, i: int)
    requires
        0 <= i < items.len(),
    ensures
        sum_values(items.skip(i)) == items[i].value.len() + sum_values(items.skip(i + 1)),
{
    assert(items.skip(i).len() > 0);
    assert(items.skip(i).first() == items[i]);
    assert(items.skip(i).drop_first() =~= items.skip(i + 1));
}

proof fn lemma_batch_all_from(items: Seq<ItemModel>, i: int, used: int)
    requires
        0 <= i <= items.len(),
        used >= 0,
        used + sum_values(items.skip(i)) < MAX_BATCH_BYTE_SIZE as int,
    ensures
        spec_batch(items, i, used) == items.skip(i),
    decreases items.len() - i,
{
    if i == items.len() {
        assert(items.skip(i) =~= Seq::<ItemModel>::empty());
    } else {
        lemma_sum_values_skip(items, i);
        lemma_sum_values_nonneg(items.skip(i + 1));
        lemma_batch_all_from(items, i + 1, used + items[i].value.len());
        assert(spec_batch(items, i, used) =~= items.skip(i));
    }
}

/// Law: a read from offset 0 of a topic under no byte-cap pressure (its
/// summed value byte-length stays below the cap) returns exactly the
/// topic's items, in insertion order.
pub proof fn lemma_batch_no_cap_pressure(items: Seq<ItemModel>)
    requires
        sum_values(items) < MAX_BATCH_BYTE_SIZE as int,
    ensures
        spec_batch(items, 0, 0) == items,
{
    assert(items.skip(0) =~= items);
    lemma_batch_all_from(items, 0, 0);
}

proof fn lemma_batch_cap_from(items: Seq<ItemModel>, i: int, used: int)
    ensures
        spec_batch(items, i, used).len() > 0 ==> used + sum_values(
            spec_batch(items, i, used).drop_last(),
        ) < MAX_BATCH_BYTE_SIZE as int,
    decreases items.len() - i,
{
    let b = spec_batch(items, i, used);
    if b.len() > 0 {
        let rest = spec_batch(items, i + 1, used + items[i].value.len());
        if rest.len() == 0 {
            assert(b.drop_last() =~= Seq::<ItemModel>::empty());
        } else {
            lemma_batch_cap_from(items, i + 1, used + items[i].value.len());
            assert(b.drop_last() =~= seq![items[i]] + rest.drop_last());
            assert((seq![items[i]] + rest.drop_last()).first() == items[i]);
            assert((seq![items[i]] + rest.drop_last()).drop_first() =~= rest.drop_last());
        }
    }
}

/// Law: a returned batch exceeds the byte cap, if at all, only by the one
/// item that crossed it: the summed value byte-length over all but the
/// last item of the batch is below the cap. And a first item larger than
/// the cap alone is still included: at any in-range offset the batch holds
/// at least that item.
pub proof fn lemma_batch_within_cap(items: Seq<ItemModel>, offset: int)
    ensures
        spec_batch(items, offset, 0).len() > 0 ==> sum_values(
            spec_batch(items, offset, 0).drop_last(),
        ) < MAX_BATCH_BYTE_SIZE as int,
        0 <= offset < items.len() ==> spec_batch(items, offset, 0).len() > 0 && spec_batch(
            items,
            offset,
            0,
        )[0] == items[offset],
{
    lemma_batch_cap_from(items, offset, 0);
    if 0 <= offset < items.len() {
        assert(spec_batch(items, offset, 0) == seq![items[offset]] + spec_batch(
            items,
            offset + 1,
            0 + items[offset].value.len() as int,
        ));
    }
}

/// Law: a read whose offset is at or past the end of the topic yields an
/// empty batch; `read_batch` still reports success, not an error.
pub proof fn lemma_batch_past_end(items: Seq<ItemModel>, offset: int, used: int)
    requires
        offset >= items.len(),
    ensures
        spec_batch(items, offset, used) == Seq::<ItemModel>::empty(),
{
}

/// Holds when `post` is `pre` with one item appended to `topic`, carrying
/// the given key and value and stamped with some creation time.
pub open spec fn added_item(
    pre: StoreModel,
    post: StoreModel,
    topic: Seq<char>,
    key: Seq<char>,
    value: Seq<u8>,
) -> bool {
    &&& post.consumers == pre.consumers
    &&& exists|created: u64|
        post.topics == pre.topics.insert(
            topic,
            pre.topics[topic].push(#[trigger] item_model_at(key, value, created)),
        )
}

} // verus!
