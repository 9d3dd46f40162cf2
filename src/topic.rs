//! The publish/subscribe registry: which subscriptions each topic has, which
//! subscriptions are live, and where new subscription ids come from.
//!
//! Delivery itself (a bounded channel per subscription) is the caller's: the
//! registry says to whom a publication goes, and drops the subscriptions
//! whose delivery failed.
use vstd::prelude::*;
use vstd::string::StringExecFns;
use crate::error::KvError;

verus! {

/// Topic names with their member ids.
pub type Topics = Map<Seq<char>, Set<u32>>;

struct TopicEntry {
    name: String,
    members: Vec<u32>,
}

/// The registry of topics and subscriptions.
pub struct Broadcaster {
    topics: Vec<TopicEntry>,
    subscriptions: Vec<u32>,
    next_id: u32,
    topic_model: Ghost<Topics>,
}

/// The members of `name` in `t`, none where there is no such topic.
pub open spec fn members(t: Topics, name: Seq<char>) -> Set<u32> {
    if t.contains_key(name) {
        t[name]
    } else {
        Set::empty()
    }
}

/// The topics after `id` joins `name`, which is created if needed.
pub open spec fn after_join(t: Topics, name: Seq<char>, id: u32) -> Topics {
    t.insert(name, members(t, name).insert(id))
}

/// The topics after `id` leaves `name`; a topic left empty is dropped.
pub open spec fn after_leave(t: Topics, name: Seq<char>, id: u32) -> Topics {
    if !t.contains_key(name) {
        t
    } else if t[name].remove(id) == Set::<u32>::empty() {
        t.remove(name)
    } else {
        t.insert(name, t[name].remove(id))
    }
}

/// The topics after each of `ids`, first to last, leaves `name`.
pub open spec fn leave_all(t: Topics, name: Seq<char>, ids: Seq<u32>) -> Topics
    decreases ids.len(),
{
    if ids.len() == 0 {
        t
    } else {
        after_leave(leave_all(t, name, ids.drop_last()), name, ids.last())
    }
}

impl Broadcaster {
    /// The topics, each with its members.
    pub closed spec fn topics(&self) -> Topics {
        self.topic_model@
    }

    /// The ids of the live subscriptions.
    pub closed spec fn live(&self) -> Set<u32> {
        self.subscriptions@.to_set()
    }

    /// The id that the next subscription gets.
    pub closed spec fn next_id(&self) -> u32 {
        self.next_id
    }

    /// The registry's invariant: every topic has a member, and every id
    /// that stands anywhere was handed out before.
    pub closed spec fn wf(&self) -> bool {
        let ts = self.topics@;
        let m = self.topic_model@;
        &&& self.next_id >= 1
        &&& forall|i: int| #![trigger ts[i]]
            0 <= i < ts.len() ==> m.contains_key(ts[i].name@) && m[ts[i].name@] == ts[i].members@.to_set()
                && ts[i].members@.no_duplicates() && ts[i].members@.len() > 0
        &&& forall|n: Seq<char>| #[trigger]
            m.contains_key(n) ==> exists|i: int| 0 <= i < ts.len() && ts[i].name@ == n
        &&& forall|i: int, j: int|
            0 <= i < ts.len() && 0 <= j < ts.len() && i != j ==> (#[trigger] ts[i]).name@ != (
            #[trigger] ts[j]).name@
        &&& self.subscriptions@.no_duplicates()
        &&& forall|id: u32| #[trigger] self.subscriptions@.contains(id) ==> 1 <= id < self.next_id
        &&& forall|n: Seq<char>, id: u32|
            m.contains_key(n) && #[trigger] m[n].contains(id) ==> 1 <= id < self.next_id
    }

    /// An empty registry; ids start at 1.
    pub fn new() -> (r: Broadcaster)
        ensures
            r.wf(),
            r.topics() == Map::<Seq<char>, Set<u32>>::empty(),
            r.live() == Set::<u32>::empty(),
            r.next_id() == 1,
    {
        let r = Broadcaster {
            topics: Vec::new(),
            subscriptions: Vec::new(),
            next_id: 1,
            topic_model: Ghost(Map::empty()),
        };
        assert(r.live() =~= Set::<u32>::empty());
        r
    }

    /// Hands out the next subscription id.
    fn get_next_subscription_id(&mut self) -> (r: u32)
        requires
            old(self).wf(),
            old(self).next_id < u32::MAX,
        ensures
            final(self).wf(),
            r == old(self).next_id,
            final(self).next_id == r + 1,
            final(self).topics == old(self).topics,
            final(self).subscriptions == old(self).subscriptions,
            final(self).topic_model == old(self).topic_model,
    {
        let id = self.next_id;
        self.next_id = id + 1;
        proof {
            let m = self.topic_model@;
            assert forall|n: Seq<char>, x: u32| m.contains_key(n) && #[trigger] m[n].contains(x) implies 1
                <= x < self.next_id by {
                assert(old(self).topic_model@[n].contains(x));
            }
            assert forall|x: u32| #[trigger] self.subscriptions@.contains(x) implies 1 <= x
                < self.next_id by {
                assert(old(self).subscriptions@.contains(x));
            }
            let ts = self.topics@;
            assert(forall|i: int| #![trigger ts[i]]
            0 <= i < ts.len() ==> m.contains_key(ts[i].name@) && m[ts[i].name@] == ts[i].members@.to_set()
                && ts[i].members@.no_duplicates() && ts[i].members@.len() > 0);
            assert(forall|n: Seq<char>| #[trigger]
            m.contains_key(n) ==> exists|i: int| 0 <= i < ts.len() && ts[i].name@ == n);
            assert(forall|i: int, j: int|
            0 <= i < ts.len() && 0 <= j < ts.len() && i != j ==> (#[trigger] ts[i]).name@ != (
            #[trigger] ts[j]).name@);
            assert(self.subscriptions@.no_duplicates());
        }
        id
    }

    fn find_topic(&self, name: &String) -> (r: Option<usize>)
        requires
            self.wf(),
        ensures
            match r {
                Some(i) => i < self.topics@.len() && self.topics@[i as int].name@ == name@,
                None => !self.topic_model@.contains_key(name@),
            },
    {
        let mut i: usize = 0;
        while i < self.topics.len()
            invariant
                i <= self.topics@.len(),
                forall|j: int| 0 <= j < i ==> (#[trigger] self.topics@[j]).name@ != name@,
            decreases self.topics@.len() - i,
        {
            if self.topics[i].name == *name {
                return Some(i);
            }
            i = i + 1;
        }
        None
    }
}

/// Where `id` stands in `v`.
fn position(v: &Vec<u32>, id: u32) -> (r: Option<usize>)
    ensures
        match r {
            Some(j) => j < v@.len() && v@[j as int] == id,
            None => !v@.contains(id),
        },
{
    let mut j: usize = 0;
    while j < v.len()
        invariant
            j <= v@.len(),
            forall|k: int| 0 <= k < j ==> v@[k] != id,
        decreases v@.len() - j,
    {
        if v[j] == id {
            return Some(j);
        }
        j = j + 1;
    }
    None
}

impl Broadcaster {
    /// Opens a subscription to `name` and gives its id, which no live
    /// subscription and no topic holds. Fails only when the ids have run out.
    pub fn subscribe(&mut self, name: &str) -> (r: Result<u32, KvError>)
        requires
            old(self).wf(),
        ensures
            final(self).wf(),
            old(self).next_id() == u32::MAX ==> (r matches Err(KvError::Internal(w)) && w@
                == "subscription ids have run out"@ && *final(self)
                == *old(self)),
            old(self).next_id() < u32::MAX ==> (r matches Ok(id) && id == old(self).next_id() && id >= 1
                && !old(self).live().contains(id) && (forall|n: Seq<char>|
                !(#[trigger] members(old(self).topics(), n)).contains(id)) && final(self).live()
                == old(self).live().insert(id) && final(self).topics() == after_join(
                old(self).topics(),
                name@,
                id,
            ) && final(self).next_id() == id + 1),
    {
        if self.next_id == u32::MAX {
            return Err(KvError::Internal(String::from_str("subscription ids have run out")));
        }
        let id = self.get_next_subscription_id();
        let n = name.to_string();
        let ghost old_m = self.topic_model@;
        match self.find_topic(&n) {
            Some(i) => {
                let mut e = TopicEntry { name: String::new(), members: Vec::new() };
                self.topics.set_and_swap(i, &mut e);
                e.members.push(id);
                self.topics.set_and_swap(i, &mut e);
                self.topic_model = Ghost(after_join(old_m, n@, id));
                proof {
                    let ts = self.topics@;
                    let os = old(self).topics@;
                    assert(ts[i as int].members@ == os[i as int].members@.push(id));
                    assert(!os[i as int].members@.contains(id)) by {
                        if os[i as int].members@.contains(id) {
                            assert(old_m[n@].contains(id));
                        }
                    }
                    os[i as int].members@.lemma_push_to_set_commute(id);
                    assert(ts[i as int].members@.to_set() =~= old_m[n@].insert(id));
                    assert(ts[i as int].members@.no_duplicates()) by {
                        let ms = ts[i as int].members@;
                        let om = os[i as int].members@;
                        assert forall|a: int, b: int| 0 <= a < ms.len() && 0 <= b < ms.len() && a != b implies ms[a] != ms[b] by {
                            if a < om.len() && b < om.len() {
                            } else if a < om.len() {
                                assert(om.contains(ms[a]));
                            } else if b < om.len() {
                                assert(om.contains(ms[b]));
                            }
                        }
                    }
                    assert forall|j: int| #![trigger ts[j]] 0 <= j < ts.len() implies self.topic_model@.contains_key(
                        ts[j].name@,
                    ) && self.topic_model@[ts[j].name@] == ts[j].members@.to_set()
                        && ts[j].members@.no_duplicates() && ts[j].members@.len() > 0 by {
                        if j != i {
                            assert(ts[j] == os[j]);
                            assert(os[j].name@ != os[i as int].name@);
                            assert(old_m.contains_key(os[j].name@));
                        }
                    }
                    assert forall|k: Seq<char>| #[trigger]
                        self.topic_model@.contains_key(k) implies exists|j: int|
                        0 <= j < ts.len() && ts[j].name@ == k by {
                        if k != n@ {
                            let j = choose|j: int| 0 <= j < os.len() && os[j].name@ == k;
                            assert(ts[j] == os[j]);
                        } else {
                            assert(ts[i as int].name@ == k);
                        }
                    }
                    assert forall|a: int, b: int|
                        0 <= a < ts.len() && 0 <= b < ts.len() && a != b implies (#[trigger] ts[a]).name@
                        != (#[trigger] ts[b]).name@ by {
                        assert(os[a].name@ != os[b].name@);
                    }
                    assert forall|k: Seq<char>, x: u32|
                        self.topic_model@.contains_key(k) && #[trigger] self.topic_model@[k].contains(x)
                        implies 1 <= x < id + 1 by {
                        if k != n@ || x != id {
                            if k == n@ {
                                assert(old_m[k].contains(x));
                            } else {
                                assert(old_m.contains_key(k) && old_m[k].contains(x));
                            }
                        }
                    }
                }
            },
            None => {
                let mut ms: Vec<u32> = Vec::new();
                ms.push(id);
                self.topics.push(TopicEntry { name: n, members: ms });
                self.topic_model = Ghost(after_join(old_m, n@, id));
                proof {
                    let ts = self.topics@;
                    let os = old(self).topics@;
                    let last = os.len() as int;
                    assert(ts[last].members@ =~= Seq::<u32>::empty().push(id));
                    Seq::<u32>::empty().lemma_push_to_set_commute(id);
                    assert(Seq::<u32>::empty().to_set() =~= Set::<u32>::empty());
                    assert(ts[last].members@.to_set() =~= Set::<u32>::empty().insert(id));
                    assert(members(old_m, n@) == Set::<u32>::empty());
                    assert forall|k: Seq<char>| #[trigger]
                        self.topic_model@.contains_key(k) implies exists|j: int|
                        0 <= j < ts.len() && ts[j].name@ == k by {
                        if k != n@ {
                            let j = choose|j: int| 0 <= j < os.len() && os[j].name@ == k;
                            assert(ts[j] == os[j]);
                        } else {
                            assert(ts[last].name@ == k);
                        }
                    }
                    assert forall|a: int, b: int|
                        0 <= a < ts.len() && 0 <= b < ts.len() && a != b implies (#[trigger] ts[a]).name@
                        != (#[trigger] ts[b]).name@ by {
                        if a < last && b < last {
                            assert(os[a].name@ != os[b].name@);
                        } else if a < last {
                            assert(old_m.contains_key(os[a].name@));
                        } else if b < last {
                            assert(old_m.contains_key(os[b].name@));
                        }
                    }
                    assert forall|j: int| #![trigger ts[j]] 0 <= j < ts.len() implies self.topic_model@.contains_key(
                        ts[j].name@,
                    ) && self.topic_model@[ts[j].name@] == ts[j].members@.to_set()
                        && ts[j].members@.no_duplicates() && ts[j].members@.len() > 0 by {
                        if j < last {
                            assert(ts[j] == os[j]);
                            assert(old_m.contains_key(os[j].name@));
                        }
                    }
                    assert forall|k: Seq<char>, x: u32|
                        self.topic_model@.contains_key(k) && #[trigger] self.topic_model@[k].contains(x)
                        implies 1 <= x < id + 1 by {
                        if k != n@ {
                            assert(old_m.contains_key(k) && old_m[k].contains(x));
                        }
                    }
                }
            },
        }
        self.subscriptions.push(id);
        proof {
            old(self).subscriptions@.lemma_push_to_set_commute(id);
            assert(self.subscriptions@.to_set() =~= old(self).subscriptions@.to_set().insert(id));
            assert(!old(self).subscriptions@.contains(id));
            assert(self.subscriptions@.no_duplicates()) by {
                let ss = self.subscriptions@;
                let os = old(self).subscriptions@;
                assert forall|a: int, b: int| 0 <= a < ss.len() && 0 <= b < ss.len() && a != b implies ss[a] != ss[b] by {
                    if a < os.len() && b < os.len() {
                    } else if a < os.len() {
                        assert(os.contains(ss[a]));
                    } else if b < os.len() {
                        assert(os.contains(ss[b]));
                    }
                }
            }
            assert forall|x: u32| #[trigger] self.subscriptions@.contains(x) implies 1 <= x < self.next_id by {
                if x != id {
                    let a = choose|a: int| 0 <= a < self.subscriptions@.len() && self.subscriptions@[a] == x;
                    assert(a < old(self).subscriptions@.len());
                    assert(old(self).subscriptions@[a] == x);
                    assert(old(self).subscriptions@.contains(x));
                }
            }
            assert forall|k: Seq<char>| !(#[trigger] members(old_m, k)).contains(id) by {
                if old_m.contains_key(k) && old_m[k].contains(id) {
                }
            }
            let ts = self.topics@;
            let m = self.topic_model@;
            assert(self.next_id >= 1);
            assert(forall|i: int| #![trigger ts[i]]
            0 <= i < ts.len() ==> m.contains_key(ts[i].name@) && m[ts[i].name@] == ts[i].members@.to_set()
                && ts[i].members@.no_duplicates() && ts[i].members@.len() > 0);
            assert(forall|n: Seq<char>| #[trigger]
            m.contains_key(n) ==> exists|i: int| 0 <= i < ts.len() && ts[i].name@ == n);
            assert(forall|i: int, j: int|
            0 <= i < ts.len() && 0 <= j < ts.len() && i != j ==> (#[trigger] ts[i]).name@ != (
            #[trigger] ts[j]).name@);
            assert(forall|n: Seq<char>, id: u32|
            m.contains_key(n) && #[trigger] m[n].contains(id) ==> 1 <= id < self.next_id);
        }
        Ok(id)
    }
}

proof fn lemma_remove_unique(s: Seq<u32>, j: int)
    requires
        s.no_duplicates(),
        0 <= j < s.len(),
    ensures
        s.remove(j).no_duplicates(),
        s.remove(j).to_set() == s.to_set().remove(s[j]),
{
    let r = s.remove(j);
    assert forall|a: int, b: int| 0 <= a < r.len() && 0 <= b < r.len() && a != b implies r[a] != r[b] by {
        let oa = if a < j { a } else { a + 1 };
        let ob = if b < j { b } else { b + 1 };
        assert(r[a] == s[oa]);
        assert(r[b] == s[ob]);
    }
    assert forall|x: u32| r.to_set().contains(x) <==> s.to_set().remove(s[j]).contains(x) by {
        if r.contains(x) {
            let a = choose|a: int| 0 <= a < r.len() && r[a] == x;
            let oa = if a < j { a } else { a + 1 };
            assert(r[a] == s[oa]);
            assert(s.contains(x));
        }
        if s.contains(x) && x != s[j] {
            let a = choose|a: int| 0 <= a < s.len() && s[a] == x;
            if a < j {
                assert(r[a] == x);
            } else {
                assert(a != j);
                assert(r[a - 1] == x);
            }
        }
    }
    assert(r.to_set() =~= s.to_set().remove(s[j]));
}

impl Broadcaster {
    /// Takes `id` out of topic `name` (dropping the topic if that leaves it
    /// empty) and out of the live subscriptions; gives `id` back if it was
    /// live.
    pub fn remove_subscription(&mut self, name: &str, id: u32) -> (r: Option<u32>)
        requires
            old(self).wf(),
        ensures
            final(self).wf(),
            final(self).topics() == after_leave(old(self).topics(), name@, id),
            final(self).live() == old(self).live().remove(id),
            final(self).next_id() == old(self).next_id(),
            r == (if old(self).live().contains(id) {
                Some(id)
            } else {
                None::<u32>
            }),
    {
        let n = name.to_string();
        let ghost old_m = self.topic_model@;
        match self.find_topic(&n) {
            Some(i) => {
                let mut e = TopicEntry { name: String::new(), members: Vec::new() };
                self.topics.set_and_swap(i, &mut e);
                let ghost om = e.members@;
                proof {
                    assert(old_m[n@] == om.to_set());
                }
                match position(&e.members, id) {
                    Some(j) => {
                        e.members.remove(j);
                        proof {
                            lemma_remove_unique(om, j as int);
                        }
                    },
                    None => {
                        assert(om.to_set().remove(id) =~= om.to_set());
                    },
                }
                let ghost nm = e.members@;
                assert(nm.to_set() == old_m[n@].remove(id));
                if e.members.len() == 0 {
                    assert(nm.to_set() =~= Set::<u32>::empty());
                    self.topics.remove(i);
                    self.topic_model = Ghost(old_m.remove(n@));
                    proof {
                        let ts = self.topics@;
                        let os = old(self).topics@;
                        assert forall|j: int| #![trigger ts[j]] 0 <= j < ts.len() implies self.topic_model@.contains_key(
                            ts[j].name@,
                        ) && self.topic_model@[ts[j].name@] == ts[j].members@.to_set()
                            && ts[j].members@.no_duplicates() && ts[j].members@.len() > 0 by {
                            let oj = if j < i { j } else { j + 1 };
                            assert(ts[j] == os[oj]);
                            assert(os[oj].name@ != os[i as int].name@);
                            assert(old_m.contains_key(os[oj].name@));
                        }
                        assert forall|k: Seq<char>| #[trigger]
                            self.topic_model@.contains_key(k) implies exists|j: int|
                            0 <= j < ts.len() && ts[j].name@ == k by {
                            let oj = choose|oj: int| 0 <= oj < os.len() && os[oj].name@ == k;
                            assert(oj != i);
                            if oj < i {
                                assert(ts[oj] == os[oj]);
                            } else {
                                assert(ts[oj - 1] == os[oj]);
                            }
                        }
                        assert forall|a: int, b: int|
                            0 <= a < ts.len() && 0 <= b < ts.len() && a != b implies (#[trigger] ts[a]).name@
                            != (#[trigger] ts[b]).name@ by {
                            let oa = if a < i { a } else { a + 1 };
                            let ob = if b < i { b } else { b + 1 };
                            assert(ts[a] == os[oa]);
                            assert(ts[b] == os[ob]);
                            assert(os[oa].name@ != os[ob].name@);
                        }
                        assert forall|k: Seq<char>, x: u32|
                            self.topic_model@.contains_key(k) && #[trigger] self.topic_model@[k].contains(x)
                            implies 1 <= x < self.next_id by {
                            assert(old_m.contains_key(k) && old_m[k].contains(x));
                        }
                    }
                } else {
                    assert(nm.to_set().contains(nm[0]));
                    assert(old_m[n@].remove(id) != Set::<u32>::empty());
                    self.topics.set_and_swap(i, &mut e);
                    self.topic_model = Ghost(old_m.insert(n@, old_m[n@].remove(id)));
                    proof {
                        let ts = self.topics@;
                        let os = old(self).topics@;
                        assert(ts[i as int].members@ == nm);
                        assert forall|j: int| #![trigger ts[j]] 0 <= j < ts.len() implies self.topic_model@.contains_key(
                            ts[j].name@,
                        ) && self.topic_model@[ts[j].name@] == ts[j].members@.to_set()
                            && ts[j].members@.no_duplicates() && ts[j].members@.len() > 0 by {
                            if j != i {
                                assert(ts[j] == os[j]);
                                assert(os[j].name@ != os[i as int].name@);
                                assert(old_m.contains_key(os[j].name@));
                            }
                        }
                        assert forall|k: Seq<char>| #[trigger]
                            self.topic_model@.contains_key(k) implies exists|j: int|
                            0 <= j < ts.len() && ts[j].name@ == k by {
                            let oj = choose|oj: int| 0 <= oj < os.len() && os[oj].name@ == k;
                            if oj != i {
                                assert(ts[oj] == os[oj]);
                            } else {
                                assert(ts[i as int].name@ == k);
                            }
                        }
                        assert forall|a: int, b: int|
                            0 <= a < ts.len() && 0 <= b < ts.len() && a != b implies (#[trigger] ts[a]).name@
                            != (#[trigger] ts[b]).name@ by {
                            assert(os[a].name@ != os[b].name@);
                        }
                        assert forall|k: Seq<char>, x: u32|
                            self.topic_model@.contains_key(k) && #[trigger] self.topic_model@[k].contains(x)
                            implies 1 <= x < self.next_id by {
                            assert(old_m.contains_key(k) && old_m[k].contains(x));
                        }
                    }
                }
            },
            None => {},
        }
        let ghost os = self.subscriptions@;
        let r = match position(&self.subscriptions, id) {
            Some(j) => {
                self.subscriptions.remove(j);
                proof {
                    lemma_remove_unique(os, j as int);
                    assert forall|x: u32| #[trigger] self.subscriptions@.contains(x) implies 1 <= x < self.next_id by {
                        assert(self.subscriptions@.to_set().contains(x));
                        assert(os.to_set().contains(x));
                    }
                }
                Some(id)
            },
            None => {
                assert(os.to_set().remove(id) =~= os.to_set());
                None
            },
        };
        proof {
            let ts = self.topics@;
            let m = self.topic_model@;
            assert(self.next_id >= 1);
            assert(forall|i: int| #![trigger ts[i]]
            0 <= i < ts.len() ==> m.contains_key(ts[i].name@) && m[ts[i].name@] == ts[i].members@.to_set()
                && ts[i].members@.no_duplicates() && ts[i].members@.len() > 0);
            assert(forall|n: Seq<char>| #[trigger]
            m.contains_key(n) ==> exists|i: int| 0 <= i < ts.len() && ts[i].name@ == n);
            assert(forall|i: int, j: int|
            0 <= i < ts.len() && 0 <= j < ts.len() && i != j ==> (#[trigger] ts[i]).name@ != (
            #[trigger] ts[j]).name@);
            assert(forall|n: Seq<char>, id: u32|
            m.contains_key(n) && #[trigger] m[n].contains(id) ==> 1 <= id < self.next_id);
            assert(self.subscriptions@.no_duplicates());
        }
        r
    }

    /// Ends subscription `id` to `name`. Fails with `NotFound` exactly when
    /// `id` is not live; the topic loses `id` either way.
    pub fn unsubscribe(&mut self, name: &str, id: u32) -> (r: Result<u32, KvError>)
        requires
            old(self).wf(),
        ensures
            final(self).wf(),
            final(self).topics() == after_leave(old(self).topics(), name@, id),
            final(self).live() == old(self).live().remove(id),
            final(self).next_id() == old(self).next_id(),
            old(self).live().contains(id) ==> r == Ok::<u32, KvError>(id),
            !old(self).live().contains(id) ==> (r matches Err(KvError::NotFound(w)) && w@
                == "subscription "@ + decimal(id)),
    {
        match self.remove_subscription(name, id) {
            Some(x) => Ok(x),
            None => Err(KvError::NotFound(String::from_str("subscription ").concat(decimal_text(id).as_str()))),
        }
    }
}

/// The decimal digits of `n`, most significant first.
pub open spec fn decimal(n: u32) -> Seq<char>
    decreases n,
{
    if n < 10 {
        seq![((n + 48) as u8) as char]
    } else {
        decimal(n / 10) + seq![((n % 10 + 48) as u8) as char]
    }
}

/// Relies on u32's `to_string`: the decimal digits, most significant first.
#[verifier::external_body]
fn decimal_text(n: u32) -> (r: String)
    ensures
        r@ == decimal(n),
{
    n.to_string()
}

impl Broadcaster {
    /// The live subscriptions of topic `name`, each once: those that a
    /// publication on `name` goes to.
    pub fn publish(&self, name: &str) -> (r: Vec<u32>)
        requires
            self.wf(),
        ensures
            r@.no_duplicates(),
            forall|x: u32|
                r@.contains(x) <==> members(self.topics(), name@).contains(x) && self.live().contains(x),
    {
        let n = name.to_string();
        let mut out: Vec<u32> = Vec::new();
        match self.find_topic(&n) {
            None => {
                assert(forall|x: u32| !members(self.topics(), name@).contains(x));
                out
            },
            Some(t) => {
                let ms = &self.topics[t].members;
                assert(self.topic_model@[n@] == ms@.to_set());
                let mut i: usize = 0;
                while i < ms.len()
                    invariant
                        i <= ms@.len(),
                        ms@.no_duplicates(),
                        out@.no_duplicates(),
                        forall|x: u32|
                            out@.contains(x) <==> (exists|k: int| 0 <= k < i && ms@[k] == x)
                                && self.subscriptions@.contains(x),
                    decreases ms@.len() - i,
                {
                    let id = ms[i];
                    if position(&self.subscriptions, id).is_some() {
                        proof {
                            assert(!out@.contains(id)) by {
                                if out@.contains(id) {
                                    let k = choose|k: int| 0 <= k < i && ms@[k] == id;
                                    assert(ms@[k] == ms@[i as int]);
                                }
                            }
                        }
                        let ghost before = out@;
                        out.push(id);
                        proof {
                            assert forall|a: int, b: int|
                                0 <= a < out@.len() && 0 <= b < out@.len() && a != b implies out@[a] != out@[b] by {
                                if a < before.len() && b < before.len() {
                                } else if a < before.len() {
                                    assert(before.contains(out@[a]));
                                } else if b < before.len() {
                                    assert(before.contains(out@[b]));
                                }
                            }
                            assert forall|x: u32|
                                out@.contains(x) <==> (exists|k: int| 0 <= k < i + 1 && ms@[k] == x)
                                    && self.subscriptions@.contains(x) by {
                                if out@.contains(x) && x != id {
                                    let a = choose|a: int| 0 <= a < out@.len() && out@[a] == x;
                                    assert(a < before.len());
                                    assert(before.contains(x));
                                }
                                if (exists|k: int| 0 <= k < i + 1 && ms@[k] == x) && self.subscriptions@.contains(x) {
                                    let k = choose|k: int| 0 <= k < i + 1 && ms@[k] == x;
                                    if k < i {
                                        assert(before.contains(x));
                                        let a = choose|a: int| 0 <= a < before.len() && before[a] == x;
                                        assert(out@[a] == x);
                                    } else {
                                        assert(out@[before.len() as int] == x);
                                    }
                                }
                            }
                        }
                    } else {
                        proof {
                            assert forall|x: u32|
                                out@.contains(x) <==> (exists|k: int| 0 <= k < i + 1 && ms@[k] == x)
                                    && self.subscriptions@.contains(x) by {
                                if (exists|k: int| 0 <= k < i + 1 && ms@[k] == x) && self.subscriptions@.contains(x) {
                                    let k = choose|k: int| 0 <= k < i + 1 && ms@[k] == x;
                                    assert(k < i);
                                }
                            }
                        }
                    }
                    i = i + 1;
                }
                proof {
                    assert forall|x: u32|
                        out@.contains(x) <==> members(self.topics(), name@).contains(x) && self.live().contains(x) by {
                        if ms@.contains(x) {
                            let k = choose|k: int| 0 <= k < ms@.len() && ms@[k] == x;
                            assert(exists|k: int| 0 <= k < i && ms@[k] == x);
                        }
                    }
                }
                out
            },
        }
    }

    /// Drops each of `failed` from topic `name` and from the live
    /// subscriptions: the clean-up after deliveries that could not be made.
    pub fn sweep(&mut self, name: &str, failed: &Vec<u32>)
        requires
            old(self).wf(),
        ensures
            final(self).wf(),
            final(self).next_id() == old(self).next_id(),
            final(self).live() == old(self).live().difference(failed@.to_set()),
            final(self).topics() == leave_all(old(self).topics(), name@, failed@),
            forall|x: u32|
                failed@.contains(x) ==> !final(self).live().contains(x) && !members(
                    final(self).topics(),
                    name@,
                ).contains(x),
    {
        let mut i: usize = 0;
        while i < failed.len()
            invariant
                self.wf(),
                i <= failed@.len(),
                self.next_id() == old(self).next_id(),
                self.live() == old(self).live().difference(failed@.subrange(0, i as int).to_set()),
                self.topics() == leave_all(old(self).topics(), name@, failed@.subrange(0, i as int)),
                forall|k: int| 0 <= k < i ==> !members(self.topics(), name@).contains(#[trigger] failed@[k]),
            decreases failed@.len() - i,
        {
            let ghost before = self.topics();
            let _ = self.remove_subscription(name, failed[i]);
            proof {
                let y = failed@[i as int];
                assert(failed@.subrange(0, i + 1).drop_last() =~= failed@.subrange(0, i as int));
                assert forall|k: int| 0 <= k < i + 1 implies !members(self.topics(), name@).contains(
                    #[trigger] failed@[k],
                ) by {
                    if before.contains_key(name@) {
                        assert(!members(before, name@).contains(failed@[k]) || failed@[k] == y);
                    }
                }
                assert(failed@.subrange(0, i + 1).to_set() =~= failed@.subrange(0, i as int).to_set().insert(y)) by {
                    assert(failed@.subrange(0, i + 1) =~= failed@.subrange(0, i as int).push(y));
                    failed@.subrange(0, i as int).lemma_push_to_set_commute(y);
                }
                assert(self.live() =~= old(self).live().difference(failed@.subrange(0, i + 1).to_set()));
            }
            i = i + 1;
        }
        proof {
            assert(failed@.subrange(0, i as int) =~= failed@);
            assert forall|x: u32| failed@.contains(x) implies !self.live().contains(x) && !members(
                self.topics(),
                name@,
            ).contains(x) by {
                let k = choose|k: int| 0 <= k < failed@.len() && failed@[k] == x;
                assert(failed@.to_set().contains(x));
            }
        }
    }
}

} // verus!
