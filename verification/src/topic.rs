//! Topics: a named channel owning a subscriber set and an append-only,
//! ordered log of messages.

use vstd::prelude::*;

use crate::msg::{Msg, MsgView};

verus! {

/// The views of a sequence of strings, as sequences of characters.
pub open spec fn str_views(v: Seq<String>) -> Seq<Seq<char>> {
    v.map_values(|s: String| s@)
}

/// The views of a sequence of messages.
pub open spec fn msg_views(v: Seq<Msg>) -> Seq<MsgView> {
    v.map_values(|m: Msg| m@)
}

/// No string occurs twice in the sequence: the sequence represents a set.
pub open spec fn unique_strs(s: Seq<Seq<char>>) -> bool {
    forall|i: int, j: int| 0 <= i < j < s.len() ==> s[i] != s[j]
}

/// The sequence `s` with every occurrence of `c` removed, order otherwise
/// kept.
pub open spec fn remove_str(s: Seq<Seq<char>>, c: Seq<char>) -> Seq<Seq<char>>
    decreases s.len(),
{
    if s.len() == 0 {
        Seq::empty()
    } else {
        let rest = remove_str(s.drop_last(), c);
        if s.last() == c {
            rest
        } else {
            rest.push(s.last())
        }
    }
}

/// How often `c` occurs in `s`.
pub open spec fn count_str(s: Seq<Seq<char>>, c: Seq<char>) -> nat
    decreases s.len(),
{
    if s.len() == 0 {
        0
    } else {
        count_str(s.drop_last(), c) + (if s.last() == c {
            1nat
        } else {
            0nat
        })
    }
}

/// An element is in `remove_str(s, c)` exactly when it is in `s` and is not
/// `c`; removal keeps uniqueness, and removing an absent element changes
/// nothing.
pub proof fn lemma_remove_str(s: Seq<Seq<char>>, c: Seq<char>)
    ensures
        forall|x: Seq<char>| #[trigger] remove_str(s, c).contains(x) <==> s.contains(x) && x != c,
        unique_strs(s) ==> unique_strs(remove_str(s, c)),
        !s.contains(c) ==> remove_str(s, c) =~= s,
    decreases s.len(),
{
    if s.len() == 0 {
        assert forall|x: Seq<char>| #[trigger] remove_str(s, c).contains(x) implies false by {}
    } else {
        lemma_remove_str(s.drop_last(), c);
        assert(unique_strs(s) ==> unique_strs(s.drop_last()));
        assert forall|x: Seq<char>| #[trigger]
            remove_str(s, c).contains(x) implies s.contains(x) && x != c by {
            if s.last() != c && x == s.last() {
                assert(s[s.len() - 1] == x);
            } else {
                assert(remove_str(s.drop_last(), c).contains(x));
                let i = choose|i: int|
                    0 <= i < s.drop_last().len() && s.drop_last()[i] == x && x != c;
                assert(s[i] == x);
            }
        }
        assert forall|x: Seq<char>| s.contains(x) && x != c implies #[trigger]
            remove_str(s, c).contains(x) by {
            let i = choose|i: int| 0 <= i < s.len() && s[i] == x;
            if i < s.len() - 1 {
                assert(s.drop_last()[i] == x);
                assert(remove_str(s.drop_last(), c).contains(x));
                let j = choose|j: int|
                    0 <= j < remove_str(s.drop_last(), c).len() && remove_str(s.drop_last(), c)[j]
                        == x;
                assert(remove_str(s, c)[j] == x);
            } else {
                assert(s.last() == x);
                assert(remove_str(s, c).last() == x);
            }
        }
        if unique_strs(s) {
            let r = remove_str(s, c);
            if s.last() != c {
                assert forall|i: int, j: int| 0 <= i < j < r.len() implies r[i] != r[j] by {
                    if j == r.len() - 1 {
                        assert(r[j] == s.last());
                        assert(remove_str(s.drop_last(), c).contains(r[i]));
                        assert(s.drop_last().contains(r[i]));
                        let k = choose|k: int|
                            0 <= k < s.drop_last().len() && s.drop_last()[k] == r[i];
                        assert(s[k] == r[i] && s[s.len() - 1] == s.last());
                    }
                }
            }
        }
        if !s.contains(c) {
            assert(s[s.len() - 1] == s.last());
            assert(s.last() != c);
            assert(!s.drop_last().contains(c)) by {
                if s.drop_last().contains(c) {
                    let i = choose|i: int| 0 <= i < s.drop_last().len() && s.drop_last()[i] == c;
                    assert(s[i] == c);
                }
            }
            assert(remove_str(s, c) =~= s.drop_last().push(s.last()));
            assert(s.drop_last().push(s.last()) =~= s);
        }
    }
}

/// In a duplicate-free sequence an element that occurs at all occurs exactly
/// once.
pub proof fn lemma_count_unique(s: Seq<Seq<char>>, c: Seq<char>)
    requires
        unique_strs(s),
    ensures
        s.contains(c) ==> count_str(s, c) == 1,
        !s.contains(c) ==> count_str(s, c) == 0,
    decreases s.len(),
{
    if s.len() > 0 {
        assert(unique_strs(s.drop_last()));
        lemma_count_unique(s.drop_last(), c);
        assert(s[s.len() - 1] == s.last());
        if s.last() == c {
            assert(!s.drop_last().contains(c)) by {
                if s.drop_last().contains(c) {
                    let i = choose|i: int| 0 <= i < s.drop_last().len() && s.drop_last()[i] == c;
                    assert(s[i] == c);
                }
            }
        } else {
            if s.contains(c) {
                let i = choose|i: int| 0 <= i < s.len() && s[i] == c;
                assert(s.drop_last()[i] == c);
            } else {
                assert(!s.drop_last().contains(c)) by {
                    if s.drop_last().contains(c) {
                        let i = choose|i: int|
                            0 <= i < s.drop_last().len() && s.drop_last()[i] == c;
                        assert(s[i] == c);
                    }
                }
            }
        }
    }
}

/// Mathematical model of a [`Topic`]: its name, its subscriber set (as a
/// duplicate-free sequence of client identifiers) and its message log.
#[verifier::ext_equal]
pub ghost struct TopicView {
    pub name: Seq<char>,
    pub subscribers: Seq<Seq<char>>,
    pub msgs: Seq<MsgView>,
}

impl TopicView {
    /// Well-formed: the subscriber list holds no client twice, so it
    /// faithfully represents a set.
    pub open spec fn wf(self) -> bool {
        unique_strs(self.subscribers)
    }

    /// The topic after subscribing `c`: unchanged when `c` is already
    /// subscribed, else `c` is appended.
    pub open spec fn with_subscriber(self, c: Seq<char>) -> TopicView {
        if self.subscribers.contains(c) {
            self
        } else {
            TopicView { name: self.name, subscribers: self.subscribers.push(c), msgs: self.msgs }
        }
    }

    /// The topic after unsubscribing `c`: every occurrence of `c` is removed
    /// from the subscriber list.
    pub open spec fn without_subscriber(self, c: Seq<char>) -> TopicView {
        TopicView {
            name: self.name,
            subscribers: remove_str(self.subscribers, c),
            msgs: self.msgs,
        }
    }

    /// The topic with one more message appended to its log.
    pub open spec fn with_msg(self, m: MsgView) -> TopicView {
        TopicView { name: self.name, subscribers: self.subscribers, msgs: self.msgs.push(m) }
    }
}

/// A named channel: a subscriber set and an ordered, append-only message log.
#[derive(Debug, Clone)]
pub struct Topic {
    pub name: String,
    pub subscribers: Vec<String>,
    pub msgs: Vec<Msg>,
}

impl View for Topic {
    type V = TopicView;

    open spec fn view(&self) -> TopicView {
        TopicView {
            name: self.name@,
            subscribers: str_views(self.subscribers@),
            msgs: msg_views(self.msgs@),
        }
    }
}

/// Does the vector of strings hold one whose characters are `s`?
pub fn contains_str(v: &Vec<String>, s: &str) -> (r: bool)
    ensures
        r == str_views(v@).contains(s@),
{
    let key: String = s.to_owned();
    let mut i: usize = 0;
    while i < v.len()
        invariant
            0 <= i <= v.len(),
            key@ == s@,
            forall|k: int| 0 <= k < i ==> str_views(v@)[k] != s@,
        decreases v.len() - i,
    {
        if v[i] == key {
            assert(str_views(v@)[i as int] == s@);
            return true;
        }
        i += 1;
    }
    false
}

impl Topic {
    /// A fresh topic with the given name, no subscribers and no messages.
    pub fn new(name: &str) -> (t: Topic)
        ensures
            t@ == (TopicView { name: name@, subscribers: Seq::empty(), msgs: Seq::empty() }),
            t@.wf(),
    {
        let t = Topic { name: name.to_owned(), subscribers: Vec::new(), msgs: Vec::new() };
        assert(t@.subscribers =~= Seq::<Seq<char>>::empty());
        assert(t@.msgs =~= Seq::<MsgView>::empty());
        assert(t@ =~= (TopicView { name: name@, subscribers: Seq::empty(), msgs: Seq::empty() }));
        t
    }

    /// Is `client_id` in the subscriber set?
    pub fn is_subscribed(&self, client_id: &str) -> (r: bool)
        ensures
            r == self@.subscribers.contains(client_id@),
    {
        contains_str(&self.subscribers, client_id)
    }

    /// Adds `client_id` to the subscriber set; a no-op when already present.
    pub fn subscribe(&mut self, client_id: &str)
        requires
            old(self)@.wf(),
        ensures
            final(self)@ == old(self)@.with_subscriber(client_id@),
            final(self)@.wf(),
    {
        if !contains_str(&self.subscribers, client_id) {
            let ghost before = self@;
            self.subscribers.push(client_id.to_owned());
            assert(str_views(self.subscribers@) =~= before.subscribers.push(client_id@));
            assert(final(self)@ =~= before.with_subscriber(client_id@));
        }
    }

    /// Removes `client_id` from the subscriber set; a no-op when absent.
    pub fn unsubscribe(&mut self, client_id: &str)
        requires
            old(self)@.wf(),
        ensures
            final(self)@ == old(self)@.without_subscriber(client_id@),
            final(self)@.wf(),
    {
        let ghost before = self@;
        let mut kept: Vec<String> = Vec::new();
        let key: String = client_id.to_owned();
        let mut i: usize = 0;
        while i < self.subscribers.len()
            invariant
                0 <= i <= self.subscribers.len(),
                key@ == client_id@,
                str_views(kept@) =~= remove_str(
                    str_views(self.subscribers@).take(i as int),
                    client_id@,
                ),
            decreases self.subscribers.len() - i,
        {
            let ghost prefix = str_views(self.subscribers@).take(i as int);
            let ghost prefix2 = str_views(self.subscribers@).take(i + 1int);
            assert(prefix2.drop_last() =~= prefix);
            assert(prefix2.last() == str_views(self.subscribers@)[i as int]);
            if !(self.subscribers[i] == key) {
                kept.push(self.subscribers[i].clone());
            }
            i += 1;
        }
        assert(str_views(self.subscribers@).take(self.subscribers@.len() as int) =~= str_views(
            self.subscribers@,
        ));
        self.subscribers = kept;
        proof {
            lemma_remove_str(before.subscribers, client_id@);
            assert(final(self)@ =~= before.without_subscriber(client_id@));
        }
    }

    /// Appends a message to the log.
    pub fn push_msg(&mut self, m: Msg)
        ensures
            final(self)@ == old(self)@.with_msg(m@),
            old(self)@.wf() ==> final(self)@.wf(),
    {
        let ghost before = self@;
        let ghost mv = m@;
        self.msgs.push(m);
        assert(msg_views(self.msgs@) =~= before.msgs.push(mv));
        assert(final(self)@ =~= before.with_msg(mv));
    }
}

} // verus!
