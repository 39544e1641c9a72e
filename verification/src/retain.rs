//! In-memory retained-message storage: the last published payload for each
//! concrete topic, replayed to new subscribers by filter.

use vstd::prelude::*;

use crate::topic::{check_topic, filter_matches, valid_topic};
use crate::types::{Error, Id, Listener, Publish, TopicName};

verus! {

/// A retained message: the payload last published on a topic, with its
/// sender.
pub struct Retain {
    pub from: Id,
    pub publish: Publish,
}

/// Mathematical value of a `Retain`.
pub ghost struct RetainV {
    pub from: (u64, Seq<char>),
    pub publish: crate::types::PublishV,
}

impl View for Retain {
    type V = RetainV;

    open spec fn view(&self) -> RetainV {
        RetainV { from: self.from@, publish: self.publish@ }
    }
}

impl DeepView for Retain {
    type V = RetainV;

    open spec fn deep_view(&self) -> RetainV {
        self.view()
    }
}

impl Clone for Retain {
    fn clone(&self) -> (r: Retain)
        ensures
            r@ == self@,
    {
        Retain { from: self.from.clone(), publish: self.publish.clone() }
    }
}

/// Index of the entry stored for topic `t`, or `-1`.
pub open spec fn find_topic(s: Seq<(Seq<char>, RetainV)>, t: Seq<char>) -> int
    decreases s.len(),
{
    if s.len() == 0 {
        -1
    } else if s[0].0 == t {
        0
    } else {
        let r = find_topic(s.skip(1), t);
        if r < 0 {
            -1
        } else {
            r + 1
        }
    }
}

pub proof fn lemma_find_topic(s: Seq<(Seq<char>, RetainV)>, t: Seq<char>)
    ensures
        -1 <= find_topic(s, t) < s.len(),
        find_topic(s, t) >= 0 ==> s[find_topic(s, t)].0 == t,
        forall|j: int| 0 <= j < find_topic(s, t) ==> s[j].0 != t,
        find_topic(s, t) == -1 ==> forall|j: int| 0 <= j < s.len() ==> s[j].0 != t,
    decreases s.len(),
{
    if s.len() == 0 {
    } else if s[0].0 == t {
    } else {
        lemma_find_topic(s.skip(1), t);
        assert forall|j: int| 0 <= j < find_topic(s, t) implies s[j].0 != t by {
            if j > 0 {
                assert(s.skip(1)[j - 1].0 != t);
            }
        }
        if find_topic(s, t) == -1 {
            assert forall|j: int| 0 <= j < s.len() implies s[j].0 != t by {
                if j > 0 {
                    assert(s.skip(1)[j - 1].0 != t);
                }
            }
        }
    }
}

/// What storing a retained message does: replace the entry for the topic or
/// append a fresh one.
pub open spec fn spec_retain_set(
    s: Seq<(Seq<char>, RetainV)>,
    t: Seq<char>,
    r: RetainV,
) -> Seq<(Seq<char>, RetainV)> {
    let i = find_topic(s, t);
    if i >= 0 {
        s.update(i, (t, r))
    } else {
        s.push((t, r))
    }
}

/// The stored entries whose topic matches filter `f`, in storage order.
pub open spec fn spec_retained(s: Seq<(Seq<char>, RetainV)>, f: Seq<char>) -> Seq<
    (Seq<char>, RetainV),
>
    decreases s.len(),
{
    if s.len() == 0 {
        Seq::empty()
    } else if filter_matches(f, s.last().0) {
        spec_retained(s.drop_last(), f).push(s.last())
    } else {
        spec_retained(s.drop_last(), f)
    }
}

/// Retained-message storage keyed by concrete topic; `max` retains the peak
/// count ever reached.
pub struct RetainStorage {
    pub items: Vec<(TopicName, Retain)>,
    pub peak: usize,
}

impl RetainStorage {
    pub open spec fn items_view(&self) -> Seq<(Seq<char>, RetainV)> {
        self.items.deep_view()
    }

    /// Topics stored are concrete and unique.
    pub open spec fn wf(&self) -> bool {
        &&& forall|i: int| 0 <= i < self.items_view().len() ==> valid_topic(
            (#[trigger] self.items_view()[i]).0,
        )
        &&& forall|i: int, j: int|
            0 <= i < j < self.items_view().len() ==> self.items_view()[i].0
                != self.items_view()[j].0
        &&& self.peak >= self.items_view().len()
    }

    pub fn new() -> (r: RetainStorage)
        ensures
            r.wf(),
            r.items_view().len() == 0,
            r.peak == 0,
    {
        let r = RetainStorage { items: Vec::new(), peak: 0 };
        proof {
            assert(r.items_view() =~= Seq::<(Seq<char>, RetainV)>::empty());
        }
        r
    }

    /// Whether retained messages are enabled for this listener.
    pub fn is_supported(&self, listen_cfg: &Listener) -> (r: bool)
        ensures
            r == listen_cfg.retain_available,
    {
        listen_cfg.retain_available
    }

    /// Stores the retained message for one concrete topic, replacing any
    /// previous one.  A topic containing wildcard characters is rejected.
    pub fn set(&mut self, topic: &str, retain: Retain) -> (r: Result<(), Error>)
        requires
            old(self).wf(),
        ensures
            final(self).wf(),
            (r is Ok) == valid_topic(topic@),
            r is Err ==> r == Result::<(), Error>::Err(Error::InvalidFilter) && *final(self)
                == *old(self),
            r is Ok ==> final(self).items_view() == spec_retain_set(
                old(self).items_view(),
                topic@,
                retain@,
            ),
    {
        if !check_topic(topic) {
            return Err(Error::InvalidFilter);
        }
        let ghost s0 = self.items_view();
        let ghost x = (topic@, retain@);
        let n = self.items.len();
        let mut i: usize = 0;
        while i < n
            invariant
                i <= n,
                n == self.items.len(),
                *self == *old(self),
                s0 == old(self).items_view(),
                x == (topic@, retain@),
                old(self).wf(),
                valid_topic(topic@),
                forall|j: int| 0 <= j < i ==> s0[j].0 != topic@,
            decreases n - i,
        {
            if crate::types::str_eq(self.items[i].0.as_str(), topic) {
                proof {
                    lemma_find_topic(s0, topic@);
                    assert(s0[i as int].0 == topic@);
                    assert(find_topic(s0, topic@) == i);
                }
                self.items.remove(i);
                self.items.insert(i, (topic.to_owned(), retain));
                proof {
                    assert(self.items_view() =~~= s0.update(i as int, x));
                    assert forall|a: int, b: int|
                        0 <= a < b < self.items_view().len() implies self.items_view()[a].0
                        != self.items_view()[b].0 by {
                        assert(s0[a].0 != s0[b].0);
                    }
                }
                return Ok(());
            }
            i = i + 1;
        }
        proof {
            lemma_find_topic(s0, topic@);
            if find_topic(s0, topic@) >= 0 {
                assert(s0[find_topic(s0, topic@)].0 == topic@);
            }
        }
        self.items.push((topic.to_owned(), retain));
        if self.items.len() > self.peak {
            self.peak = self.items.len();
        }
        proof {
            assert(self.items_view() =~~= s0.push(x));
            assert forall|a: int, b: int|
                0 <= a < b < self.items_view().len() implies self.items_view()[a].0
                != self.items_view()[b].0 by {
                if b < s0.len() {
                    assert(s0[a].0 != s0[b].0);
                } else {
                    assert(s0[a].0 != topic@);
                }
            }
        }
        Ok(())
    }

    /// The retained messages whose topic matches the filter, in storage
    /// order.
    pub fn get(&self, topic_filter: &str) -> (r: Result<Vec<(TopicName, Retain)>, Error>)
        ensures
            r is Ok,
            r matches Ok(v) ==> v.deep_view() == spec_retained(self.items_view(), topic_filter@),
    {
        let ghost s0 = self.items_view();
        proof {
            assert(s0.take(0) =~= Seq::<(Seq<char>, RetainV)>::empty());
        }
        let mut out: Vec<(TopicName, Retain)> = Vec::new();
        let n = self.items.len();
        let mut i: usize = 0;
        while i < n
            invariant
                i <= n,
                n == self.items.len(),
                s0 == self.items_view(),
                out.deep_view() == spec_retained(s0.take(i as int), topic_filter@),
            decreases n - i,
        {
            proof {
                assert(s0.take(i + 1 as int).drop_last() =~= s0.take(i as int));
                assert(s0.take(i + 1 as int).last() == s0[i as int]);
            }
            if crate::topic::topic_matches(topic_filter, self.items[i].0.as_str()) {
                let ghost o0 = out.deep_view();
                out.push((self.items[i].0.clone(), self.items[i].1.clone()));
                proof {
                    assert(out.deep_view() =~= o0.push(s0[i as int]));
                }
            }
            i = i + 1;
        }
        proof {
            assert(s0.take(n as int) =~= s0);
        }
        Ok(out)
    }

    /// Number of retained topics.
    pub fn count(&self) -> (r: isize)
        requires
            self.items_view().len() <= isize::MAX,
        ensures
            r == self.items_view().len(),
    {
        self.items.len() as isize
    }

    /// Highest number of retained topics ever reached.
    pub fn max(&self) -> (r: isize)
        requires
            self.peak <= isize::MAX,
        ensures
            r == self.peak,
    {
        self.peak as isize
    }
}

} // verus!
