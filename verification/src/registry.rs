//! The connection registry and broadcaster.
//!
//! The registry tracks the live real-time connections, each a member of
//! exactly one channel group, and fans messages out to some or all of them.
//! Each membership entry owns an outbound queue; delivering a message means
//! appending it to the queue, and the write task of the connection drains the
//! queue into the transport. Fan-out therefore never waits on any recipient:
//! a slow or dead peer only makes its own queue grow, which
//! [`lemma_broadcast_isolation`] states precisely.
//!
//! Joining hands out a fresh handle; leaving removes the entry for a handle
//! and is a harmless no-op for a handle that is unknown or already gone, so
//! every termination path may call it unconditionally.
//! [`lemma_registry_membership`] is the membership law: after any sequence of
//! join and leave calls, a handle is live in a group exactly when it was
//! handed out by a join into that group, or was live at the start, and no
//! later leave named it.

use vstd::prelude::*;

verus! {

/// A message queued for delivery to a connection: the text of one outbound
/// frame.
#[derive(Debug)]
pub struct ServerMessage(pub String);

impl View for ServerMessage {
    type V = Seq<char>;

    open spec fn view(&self) -> Seq<char> {
        self.0@
    }
}

/// The two channel groups of the controller: the rig agents and the frontend
/// observers. The groups are fixed at setup; an unknown group name cannot be
/// expressed.
#[derive(Debug, Clone, Copy, PartialEq, Eq, Structural)]
pub enum ChannelGroup {
    Rig,
    Frontend,
}

/// One live membership entry: the handle the registry handed out, the group
/// the connection joined, and its queued outbound messages.
#[derive(Debug)]
pub struct Connection {
    pub handle: u64,
    pub group: ChannelGroup,
    pub outbox: Vec<ServerMessage>,
}

/// Mathematical model of a [`Connection`].
#[verifier::ext_equal]
pub ghost struct ConnModel {
    pub handle: u64,
    pub group: ChannelGroup,
    pub outbox: Seq<Seq<char>>,
}

impl View for Connection {
    type V = ConnModel;

    open spec fn view(&self) -> ConnModel {
        ConnModel {
            handle: self.handle,
            group: self.group,
            outbox: self.outbox@.map_values(|m: ServerMessage| m@),
        }
    }
}

/// The models of a sequence of membership entries.
pub open spec fn conns_model(s: Seq<Connection>) -> Seq<ConnModel> {
    s.map_values(|c: Connection| c@)
}

/// Mathematical model of a [`Registry`].
#[verifier::ext_equal]
pub ghost struct RegistryModel {
    pub conns: Seq<ConnModel>,
    pub next_handle: u64,
}

/// Well-formedness: every live handle was handed out before `next_handle`,
/// and no two entries share a handle.
pub open spec fn reg_wf(s: RegistryModel) -> bool {
    &&& forall|i: int|
        0 <= i < s.conns.len() ==> (#[trigger] s.conns[i]).handle < s.next_handle
    &&& forall|i: int, j: int|
        0 <= i < j < s.conns.len() ==> (#[trigger] s.conns[i]).handle != (
        #[trigger] s.conns[j]).handle
}

/// Index of the first entry with handle `h`, or -1 when none is live.
pub open spec fn conn_index(conns: Seq<ConnModel>, h: u64) -> int
    decreases conns.len(),
{
    if conns.len() == 0 {
        -1
    } else if conns[0].handle == h {
        0
    } else {
        let r = conn_index(conns.drop_first(), h);
        if r == -1 {
            -1
        } else {
            r + 1
        }
    }
}

/// `conn_index` finds the first occurrence of a handle.
pub proof fn lemma_conn_index(conns: Seq<ConnModel>, h: u64)
    ensures
        conn_index(conns, h) == -1 ==> forall|i: int|
            0 <= i < conns.len() ==> (#[trigger] conns[i]).handle != h,
        conn_index(conns, h) != -1 ==> {
            let k = conn_index(conns, h);
            &&& 0 <= k < conns.len()
            &&& conns[k].handle == h
            &&& forall|i: int| 0 <= i < k ==> (#[trigger] conns[i]).handle != h
        },
    decreases conns.len(),
{
    if conns.len() == 0 {
    } else if conns[0].handle == h {
    } else {
        lemma_conn_index(conns.drop_first(), h);
        assert forall|i: int| 1 <= i < conns.len() implies #[trigger] conns[i]
            == conns.drop_first()[i - 1] by {}
    }
}

/// A handle found at `k`, with no earlier occurrence, pins `conn_index` to `k`.
pub proof fn lemma_conn_index_at(conns: Seq<ConnModel>, h: u64, k: int)
    requires
        0 <= k < conns.len(),
        conns[k].handle == h,
        forall|i: int| 0 <= i < k ==> (#[trigger] conns[i]).handle != h,
    ensures
        conn_index(conns, h) == k,
    decreases conns.len(),
{
    if k == 0 {
    } else {
        assert(conns.drop_first()[k - 1] == conns[k]);
        assert forall|i: int| 0 <= i < k - 1 implies (#[trigger] conns.drop_first()[i]).handle
            != h by {
            assert(conns.drop_first()[i] == conns[i + 1]);
        }
        lemma_conn_index_at(conns.drop_first(), h, k - 1);
    }
}

/// When no entry carries the handle, `conn_index` is -1.
pub proof fn lemma_conn_index_none(conns: Seq<ConnModel>, h: u64)
    requires
        forall|i: int| 0 <= i < conns.len() ==> (#[trigger] conns[i]).handle != h,
    ensures
        conn_index(conns, h) == -1,
    decreases conns.len(),
{
    if conns.len() > 0 {
        assert forall|i: int| 0 <= i < conns.len() - 1 implies (
        #[trigger] conns.drop_first()[i]).handle != h by {
            assert(conns.drop_first()[i] == conns[i + 1]);
        }
        lemma_conn_index_none(conns.drop_first(), h);
    }
}

/// Whether handle `h` is live in group `g`.
pub open spec fn in_group(s: RegistryModel, h: u64, g: ChannelGroup) -> bool {
    exists|i: int|
        0 <= i < s.conns.len() && (#[trigger] s.conns[i]).handle == h && s.conns[i].group == g
}

/// Joining a group: a fresh handle, an empty queue, appended at the back.
pub open spec fn spec_join(s: RegistryModel, g: ChannelGroup) -> RegistryModel {
    RegistryModel {
        conns: s.conns.push(ConnModel { handle: s.next_handle, group: g, outbox: Seq::empty() }),
        next_handle: (s.next_handle + 1) as u64,
    }
}

/// Leaving: the entry with the handle is removed; an unknown handle changes
/// nothing.
pub open spec fn spec_leave(s: RegistryModel, h: u64) -> RegistryModel {
    let k = conn_index(s.conns, h);
    if k == -1 {
        s
    } else {
        RegistryModel { conns: s.conns.remove(k), ..s }
    }
}

/// One entry after a broadcast to `g`: members of `g` have the message
/// appended to their queue, everyone else is untouched.
pub open spec fn push_msg(c: ConnModel, g: ChannelGroup, m: Seq<char>) -> ConnModel {
    if c.group == g {
        ConnModel { outbox: c.outbox.push(m), ..c }
    } else {
        c
    }
}

/// Broadcasting to a group: every member's queue grows by the message, in
/// one atomic step with respect to membership.
pub open spec fn spec_broadcast(s: RegistryModel, g: ChannelGroup, m: Seq<char>) -> RegistryModel {
    RegistryModel { conns: s.conns.map_values(|c: ConnModel| push_msg(c, g, m)), ..s }
}

/// Unicast: the one entry with the handle has the message appended; an
/// unknown handle changes nothing.
pub open spec fn spec_unicast(s: RegistryModel, h: u64, m: Seq<char>) -> RegistryModel {
    let k = conn_index(s.conns, h);
    if k == -1 {
        s
    } else {
        RegistryModel {
            conns: s.conns.update(
                k,
                ConnModel { outbox: s.conns[k].outbox.push(m), ..s.conns[k] },
            ),
            ..s
        }
    }
}

/// The connection registry: the set of live membership entries and the next
/// handle to hand out.
pub struct Registry {
    conns: Vec<Connection>,
    next_handle: u64,
}

impl View for Registry {
    type V = RegistryModel;

    closed spec fn view(&self) -> RegistryModel {
        RegistryModel { conns: conns_model(self.conns@), next_handle: self.next_handle }
    }
}

impl Registry {
    /// A fresh registry with no members.
    pub fn new() -> (r: Registry)
        ensures
            r@.conns == Seq::<ConnModel>::empty(),
            r@.next_handle == 0,
            reg_wf(r@),
    {
        let r = Registry { conns: Vec::new(), next_handle: 0 };
        proof {
            assert(r@.conns =~= Seq::<ConnModel>::empty());
        }
        r
    }

    /// Registers a connection under a group and hands out its fresh handle.
    /// Every call produces a distinct membership entry.
    pub fn join(&mut self, group: ChannelGroup) -> (h: u64)
        requires
            reg_wf(old(self)@),
            old(self)@.next_handle < u64::MAX,
        ensures
            reg_wf(final (self)@),
            h == old(self)@.next_handle,
            final (self)@ == spec_join(old(self)@, group),
    {
        let ghost s0 = self@;
        let h = self.next_handle;
        self.next_handle = self.next_handle + 1;
        self.conns.push(Connection { handle: h, group, outbox: Vec::new() });
        proof {
            let s1 = self@;
            assert(s1.conns =~~= s0.conns.push(
                ConnModel { handle: h, group, outbox: Seq::empty() },
            ));
            assert(s1 =~~= spec_join(s0, group));
            assert forall|i: int| 0 <= i < s1.conns.len() implies (#[trigger] s1.conns[i]).handle
                < s1.next_handle by {
                if i < s0.conns.len() {
                    assert(s1.conns[i] == s0.conns[i]);
                }
            }
            assert forall|i: int, j: int| 0 <= i < j < s1.conns.len() implies (
            #[trigger] s1.conns[i]).handle != (#[trigger] s1.conns[j]).handle by {
                if j < s0.conns.len() {
                    assert(s1.conns[i] == s0.conns[i] && s1.conns[j] == s0.conns[j]);
                } else {
                    assert(s1.conns[i] == s0.conns[i]);
                }
            }
        }
        h
    }

    /// Removes the membership entry for `handle`. Safe to call on every
    /// termination path: a handle that is unknown or already gone is a no-op.
    pub fn leave(&mut self, handle: u64)
        requires
            reg_wf(old(self)@),
        ensures
            reg_wf(final (self)@),
            final (self)@ == spec_leave(old(self)@, handle),
    {
        let ghost s0 = self@;
        let mut i: usize = 0;
        while i < self.conns.len()
            invariant
                i <= self.conns.len(),
                s0 == old(self)@,
                reg_wf(s0),
                self@ == s0,
                forall|j: int| 0 <= j < i ==> (#[trigger] s0.conns[j]).handle != handle,
            decreases self.conns.len() - i,
        {
            if self.conns[i].handle == handle {
                proof {
                    assert(s0.conns[i as int] == self.conns@[i as int]@);
                    lemma_conn_index_at(s0.conns, handle, i as int);
                }
                self.conns.remove(i);
                proof {
                    let s1 = self@;
                    let k = i as int;
                    assert(s1.conns =~= s0.conns.remove(k));
                    assert(s1 =~= spec_leave(s0, handle));
                    s0.conns.remove_ensures(k);
                    assert forall|a: int| 0 <= a < s1.conns.len() implies (
                    #[trigger] s1.conns[a]).handle < s1.next_handle by {}
                    assert forall|a: int, b: int| 0 <= a < b < s1.conns.len() implies (
                    #[trigger] s1.conns[a]).handle != (#[trigger] s1.conns[b]).handle by {
                        if b < k {
                        } else if a < k {
                            assert(s1.conns[a] == s0.conns[a] && s1.conns[b] == s0.conns[b + 1]);
                        } else {
                            assert(s1.conns[a] == s0.conns[a + 1] && s1.conns[b] == s0.conns[b
                                + 1]);
                        }
                    }
                }
                return ;
            }
            proof {
                assert(s0.conns[i as int] == self.conns@[i as int]@);
            }
            i += 1;
        }
        proof {
            lemma_conn_index_none(s0.conns, handle);
        }
    }

    /// Delivers the message to every current member of the group, appending
    /// it to each member's queue. Never waits on any recipient and never
    /// fails: a backlogged peer only makes its own queue longer.
    pub fn broadcast(&mut self, group: ChannelGroup, message: &ServerMessage)
        requires
            reg_wf(old(self)@),
        ensures
            reg_wf(final (self)@),
            final (self)@ == spec_broadcast(old(self)@, group, message@),
    {
        let ghost s0 = self@;
        let mut i: usize = 0;
        while i < self.conns.len()
            invariant
                i <= self.conns.len(),
                s0 == old(self)@,
                reg_wf(s0),
                self.conns@.len() == s0.conns.len(),
                self@.next_handle == s0.next_handle,
                forall|j: int|
                    0 <= j < i ==> (#[trigger] self@.conns[j]) == push_msg(
                        s0.conns[j],
                        group,
                        message@,
                    ),
                forall|j: int| i <= j < s0.conns.len() ==> (#[trigger] self@.conns[j])
                    == s0.conns[j],
            decreases self.conns.len() - i,
        {
            let ghost before = self@.conns;
            let mut c = self.conns.remove(i);
            let ghost cm = c@;
            proof {
                assert(cm == before[i as int]);
            }
            if c.group == group {
                c.outbox.push(ServerMessage(message.0.clone()));
                proof {
                    assert(c@.outbox =~= cm.outbox.push(message@));
                    assert(c@ =~= push_msg(cm, group, message@));
                }
            } else {
                proof {
                    assert(c@ =~= push_msg(cm, group, message@));
                }
            }
            self.conns.insert(i, c);
            proof {
                assert(self@.conns =~= before.update(i as int, push_msg(cm, group, message@)));
            }
            i += 1;
        }
        proof {
            let s1 = self@;
            assert(s1.conns =~= s0.conns.map_values(|c: ConnModel| push_msg(c, group, message@)));
            assert(s1 =~= spec_broadcast(s0, group, message@));
            assert forall|a: int| 0 <= a < s1.conns.len() implies (#[trigger] s1.conns[a]).handle
                < s1.next_handle by {
                assert(s1.conns[a] == push_msg(s0.conns[a], group, message@));
            }
            assert forall|a: int, b: int| 0 <= a < b < s1.conns.len() implies (
            #[trigger] s1.conns[a]).handle != (#[trigger] s1.conns[b]).handle by {
                assert(s1.conns[a] == push_msg(s0.conns[a], group, message@));
                assert(s1.conns[b] == push_msg(s0.conns[b], group, message@));
            }
        }
    }

    /// Delivers the message to the one connection with this handle, if it is
    /// still live; an unknown handle is a no-op.
    pub fn unicast(&mut self, handle: u64, message: &ServerMessage)
        requires
            reg_wf(old(self)@),
        ensures
            reg_wf(final (self)@),
            final (self)@ == spec_unicast(old(self)@, handle, message@),
    {
        let ghost s0 = self@;
        let mut i: usize = 0;
        while i < self.conns.len()
            invariant
                i <= self.conns.len(),
                s0 == old(self)@,
                reg_wf(s0),
                self@ == s0,
                forall|j: int| 0 <= j < i ==> (#[trigger] s0.conns[j]).handle != handle,
            decreases self.conns.len() - i,
        {
            if self.conns[i].handle == handle {
                proof {
                    assert(s0.conns[i as int] == self.conns@[i as int]@);
                    lemma_conn_index_at(s0.conns, handle, i as int);
                }
                let ghost before = self@.conns;
                let mut c = self.conns.remove(i);
                let ghost cm = c@;
                c.outbox.push(ServerMessage(message.0.clone()));
                proof {
                    assert(c@.outbox =~= cm.outbox.push(message@));
                }
                self.conns.insert(i, c);
                proof {
                    let s1 = self@;
                    let k = i as int;
                    assert(s1.conns =~= s0.conns.update(
                        k,
                        ConnModel { outbox: s0.conns[k].outbox.push(message@), ..s0.conns[k] },
                    ));
                    assert(s1 =~= spec_unicast(s0, handle, message@));
                    assert forall|a: int| 0 <= a < s1.conns.len() implies (
                    #[trigger] s1.conns[a]).handle < s1.next_handle by {
                        assert(s1.conns[a].handle == s0.conns[a].handle);
                    }
                    assert forall|a: int, b: int| 0 <= a < b < s1.conns.len() implies (
                    #[trigger] s1.conns[a]).handle != (#[trigger] s1.conns[b]).handle by {
                        assert(s1.conns[a].handle == s0.conns[a].handle);
                        assert(s1.conns[b].handle == s0.conns[b].handle);
                    }
                }
                return ;
            }
            proof {
                assert(s0.conns[i as int] == self.conns@[i as int]@);
            }
            i += 1;
        }
        proof {
            lemma_conn_index_none(s0.conns, handle);
        }
    }

    /// Takes the queued outbound messages of a connection, leaving its queue
    /// empty; the write task of the connection drains them into the
    /// transport. An unknown handle yields nothing.
    pub fn take_outbox(&mut self, handle: u64) -> (out: Vec<ServerMessage>)
        requires
            reg_wf(old(self)@),
        ensures
            reg_wf(final (self)@),
            final (self)@.next_handle == old(self)@.next_handle,
            final (self)@.conns.len() == old(self)@.conns.len(),
            ({
                let k = conn_index(old(self)@.conns, handle);
                if k == -1 {
                    out@.len() == 0 && final (self)@ == old(self)@
                } else {
                    out@.map_values(|m: ServerMessage| m@) == old(self)@.conns[k].outbox && final (
                    self)@.conns == old(self)@.conns.update(
                        k,
                        ConnModel { outbox: Seq::empty(), ..old(self)@.conns[k] },
                    )
                }
            }),
    {
        let ghost s0 = self@;
        let mut i: usize = 0;
        while i < self.conns.len()
            invariant
                i <= self.conns.len(),
                s0 == old(self)@,
                reg_wf(s0),
                self@ == s0,
                forall|j: int| 0 <= j < i ==> (#[trigger] s0.conns[j]).handle != handle,
            decreases self.conns.len() - i,
        {
            if self.conns[i].handle == handle {
                proof {
                    assert(s0.conns[i as int] == self.conns@[i as int]@);
                    lemma_conn_index_at(s0.conns, handle, i as int);
                }
                let c = self.conns.remove(i);
                let Connection { handle: ch, group: cg, outbox } = c;
                self.conns.insert(i, Connection { handle: ch, group: cg, outbox: Vec::new() });
                proof {
                    let s1 = self@;
                    let k = i as int;
                    assert(s1.conns =~~= s0.conns.update(
                        k,
                        ConnModel { outbox: Seq::empty(), ..s0.conns[k] },
                    ));
                    assert forall|a: int| 0 <= a < s1.conns.len() implies (
                    #[trigger] s1.conns[a]).handle < s1.next_handle by {
                        assert(s1.conns[a].handle == s0.conns[a].handle);
                    }
                    assert forall|a: int, b: int| 0 <= a < b < s1.conns.len() implies (
                    #[trigger] s1.conns[a]).handle != (#[trigger] s1.conns[b]).handle by {
                        assert(s1.conns[a].handle == s0.conns[a].handle);
                        assert(s1.conns[b].handle == s0.conns[b].handle);
                    }
                }
                return outbox;
            }
            proof {
                assert(s0.conns[i as int] == self.conns@[i as int]@);
            }
            i += 1;
        }
        proof {
            lemma_conn_index_none(s0.conns, handle);
        }
        Vec::new()
    }


    /// The next handle a join would hand out; below its maximum value a
    /// join is always possible.
    pub fn peek_next_handle(&self) -> (h: u64)
        ensures
            h == self@.next_handle,
    {
        self.next_handle
    }

    /// A snapshot of the handles currently live in a group, in join order.
    pub fn member_handles(&self, group: ChannelGroup) -> (out: Vec<u64>)
        ensures
            out@ == group_handles(self@.conns, group),
    {
        let mut out: Vec<u64> = Vec::new();
        let mut i: usize = 0;
        proof {
            assert(self@.conns.take(0) =~= Seq::<ConnModel>::empty());
        }
        while i < self.conns.len()
            invariant
                i <= self.conns.len(),
                out@ == group_handles(self@.conns.take(i as int), group),
            decreases self.conns.len() - i,
        {
            let ghost pre = self@.conns.take(i as int);
            if self.conns[i].group == group {
                out.push(self.conns[i].handle);
            }
            proof {
                assert(self@.conns[i as int] == self.conns@[i as int]@);
                assert(self@.conns.take(i + 1).drop_last() =~= pre);
                assert(self@.conns.take(i + 1).last() == self@.conns[i as int]);
            }
            i += 1;
        }
        proof {
            assert(self@.conns.take(self@.conns.len() as int) =~= self@.conns);
        }
        out
    }
}

/// The handles of the members of a group, in join order.
pub open spec fn group_handles(conns: Seq<ConnModel>, g: ChannelGroup) -> Seq<u64>
    decreases conns.len(),
{
    if conns.len() == 0 {
        Seq::empty()
    } else {
        let pre = group_handles(conns.drop_last(), g);
        if conns.last().group == g {
            pre.push(conns.last().handle)
        } else {
            pre
        }
    }
}

/// Broadcast isolation: what one broadcast delivers to a member is
/// independent of the state of every other member's queue. Two registries
/// that agree on membership, and on every queue but that of the handle
/// `slow`, deliver one broadcast identically to every other member; every
/// member of the group receives exactly the message, appended at the back of
/// its queue, whatever the slow member's queue holds; and non-members are
/// untouched.
pub proof fn lemma_broadcast_isolation(
    s1: RegistryModel,
    s2: RegistryModel,
    slow: u64,
    g: ChannelGroup,
    m: Seq<char>,
)
    requires
        s1.conns.len() == s2.conns.len(),
        forall|i: int|
            0 <= i < s1.conns.len() ==> (#[trigger] s1.conns[i]).handle == s2.conns[i].handle
                && s1.conns[i].group == s2.conns[i].group,
        forall|i: int|
            0 <= i < s1.conns.len() && (#[trigger] s1.conns[i]).handle != slow ==> s1.conns[i].outbox
                == s2.conns[i].outbox,
    ensures
        forall|i: int|
            0 <= i < s1.conns.len() && (#[trigger] s1.conns[i]).handle != slow ==> spec_broadcast(
                s1,
                g,
                m,
            ).conns[i] == spec_broadcast(s2, g, m).conns[i],
        forall|i: int|
            0 <= i < s1.conns.len() && (#[trigger] s1.conns[i]).group == g ==> spec_broadcast(
                s1,
                g,
                m,
            ).conns[i].outbox == s1.conns[i].outbox.push(m),
        forall|i: int|
            0 <= i < s1.conns.len() && (#[trigger] s1.conns[i]).group != g ==> spec_broadcast(
                s1,
                g,
                m,
            ).conns[i].outbox == s1.conns[i].outbox,
{
    assert forall|i: int|
        0 <= i < s1.conns.len() && (#[trigger] s1.conns[i]).handle != slow implies spec_broadcast(
        s1,
        g,
        m,
    ).conns[i] == spec_broadcast(s2, g, m).conns[i] by {
        assert(s1.conns[i] =~= s2.conns[i]);
    }
}

/// One registry operation of the membership law: a join into a group or a
/// leave of a handle.
pub enum RegistryOp {
    Join(ChannelGroup),
    Leave(u64),
}

/// The registry after a sequence of operations, applied in call order.
pub open spec fn run_ops(s: RegistryModel, ops: Seq<RegistryOp>) -> RegistryModel
    decreases ops.len(),
{
    if ops.len() == 0 {
        s
    } else {
        let s1 = run_ops(s, ops.drop_last());
        match ops.last() {
            RegistryOp::Join(g) => spec_join(s1, g),
            RegistryOp::Leave(h) => spec_leave(s1, h),
        }
    }
}

/// How many operations of `ops` are joins.
pub open spec fn count_joins(ops: Seq<RegistryOp>) -> nat
    decreases ops.len(),
{
    if ops.len() == 0 {
        0
    } else {
        count_joins(ops.drop_last()) + (if ops.last() is Join {
            1nat
        } else {
            0nat
        })
    }
}

/// No operation of `ops` is a leave of `h`.
pub open spec fn not_left(ops: Seq<RegistryOp>, h: u64) -> bool {
    forall|j: int| 0 <= j < ops.len() ==> (#[trigger] ops[j]) != RegistryOp::Leave(h)
}

/// Some join into `g` was handed the handle `h` — joins are numbered from
/// `base` in call order — and no later operation is a leave of `h`.
pub open spec fn joined_live(ops: Seq<RegistryOp>, base: u64, h: u64, g: ChannelGroup) -> bool {
    exists|i: int|
        0 <= i < ops.len() && (#[trigger] ops[i]) == RegistryOp::Join(g) && h as int == base as int
            + count_joins(ops.take(i)) as int && (forall|j: int|
            i < j < ops.len() ==> (#[trigger] ops[j]) != RegistryOp::Leave(h))
}

/// Joining adds exactly the membership of the fresh handle.
proof fn lemma_join_in_group(s: RegistryModel, g0: ChannelGroup)
    requires
        reg_wf(s),
        s.next_handle < u64::MAX,
    ensures
        reg_wf(spec_join(s, g0)),
        spec_join(s, g0).next_handle == s.next_handle + 1,
        forall|h: u64, g: ChannelGroup| #![trigger in_group(spec_join(s, g0), h, g)]
            in_group(spec_join(s, g0), h, g) <==> (in_group(s, h, g) || (h == s.next_handle && g
                == g0)),
{
    let t = spec_join(s, g0);
    let n = s.conns.len() as int;
    assert forall|i: int| 0 <= i < t.conns.len() implies (#[trigger] t.conns[i]).handle
        < t.next_handle by {
        if i < n {
            assert(t.conns[i] == s.conns[i]);
        }
    }
    assert forall|i: int, j: int| 0 <= i < j < t.conns.len() implies (#[trigger] t.conns[i]).handle
        != (#[trigger] t.conns[j]).handle by {
        if j < n {
            assert(t.conns[i] == s.conns[i] && t.conns[j] == s.conns[j]);
        } else {
            assert(t.conns[i] == s.conns[i]);
        }
    }
    assert forall|h: u64, g: ChannelGroup| #![trigger in_group(t, h, g)]
        in_group(t, h, g) <==> (in_group(s, h, g) || (h == s.next_handle && g == g0)) by {
        if in_group(s, h, g) {
            let i = choose|i: int|
                0 <= i < s.conns.len() && (#[trigger] s.conns[i]).handle == h && s.conns[i].group
                    == g;
            assert(t.conns[i].handle == h && t.conns[i].group == g);
        }
        if h == s.next_handle && g == g0 {
            assert(t.conns[n].handle == h && t.conns[n].group == g);
        }
        if in_group(t, h, g) {
            let i = choose|i: int|
                0 <= i < t.conns.len() && (#[trigger] t.conns[i]).handle == h && t.conns[i].group
                    == g;
            if i < n {
                assert(s.conns[i].handle == h && s.conns[i].group == g);
            }
        }
    }
}

/// Leaving removes exactly the membership of the left handle.
proof fn lemma_leave_in_group(s: RegistryModel, h0: u64)
    requires
        reg_wf(s),
    ensures
        reg_wf(spec_leave(s, h0)),
        spec_leave(s, h0).next_handle == s.next_handle,
        forall|h: u64, g: ChannelGroup| #![trigger in_group(spec_leave(s, h0), h, g)]
            in_group(spec_leave(s, h0), h, g) <==> (in_group(s, h, g) && h != h0),
{
    lemma_conn_index(s.conns, h0);
    let k = conn_index(s.conns, h0);
    let t = spec_leave(s, h0);
    if k == -1 {
        assert forall|h: u64, g: ChannelGroup| #![trigger in_group(t, h, g)]
            in_group(t, h, g) <==> (in_group(s, h, g) && h != h0) by {
            if in_group(s, h, g) && h == h0 {
                let i = choose|i: int|
                    0 <= i < s.conns.len() && (#[trigger] s.conns[i]).handle == h
                        && s.conns[i].group == g;
            }
        }
    } else {
        s.conns.remove_ensures(k);
        assert forall|a: int| 0 <= a < t.conns.len() implies (#[trigger] t.conns[a]).handle
            < t.next_handle by {
            if a < k {
                assert(t.conns[a] == s.conns[a]);
            } else {
                assert(t.conns[a] == s.conns[a + 1]);
            }
        }
        assert forall|a: int, b: int| 0 <= a < b < t.conns.len() implies (
        #[trigger] t.conns[a]).handle != (#[trigger] t.conns[b]).handle by {
            if b < k {
            } else if a < k {
                assert(t.conns[a] == s.conns[a] && t.conns[b] == s.conns[b + 1]);
            } else {
                assert(t.conns[a] == s.conns[a + 1] && t.conns[b] == s.conns[b + 1]);
            }
        }
        assert forall|h: u64, g: ChannelGroup| #![trigger in_group(t, h, g)]
            in_group(t, h, g) <==> (in_group(s, h, g) && h != h0) by {
            if in_group(t, h, g) {
                let i = choose|i: int|
                    0 <= i < t.conns.len() && (#[trigger] t.conns[i]).handle == h
                        && t.conns[i].group == g;
                if i < k {
                    assert(t.conns[i] == s.conns[i]);
                    assert(s.conns[i].handle != s.conns[k].handle);
                } else {
                    assert(t.conns[i] == s.conns[i + 1]);
                    assert(s.conns[k].handle != s.conns[i + 1].handle);
                }
            }
            if in_group(s, h, g) && h != h0 {
                let i = choose|i: int|
                    0 <= i < s.conns.len() && (#[trigger] s.conns[i]).handle == h
                        && s.conns[i].group == g;
                if i < k {
                    assert(t.conns[i].handle == h && t.conns[i].group == g);
                } else {
                    assert(i != k);
                    assert(t.conns[i - 1] == s.conns[i]);
                    assert(t.conns[i - 1].handle == h && t.conns[i - 1].group == g);
                }
            }
        }
    }
}

/// Appending a join to the operation list: nobody new is left, and exactly
/// the freshly numbered handle becomes join-live for the joined group.
proof fn lemma_ops_push_join(ops: Seq<RegistryOp>, base: u64, g0: ChannelGroup)
    requires
        ops.len() > 0,
        ops.last() == RegistryOp::Join(g0),
    ensures
        forall|h: u64| (#[trigger] not_left(ops, h)) <==> not_left(ops.drop_last(), h),
        forall|h: u64, g: ChannelGroup| #![trigger joined_live(ops, base, h, g)]
            joined_live(ops, base, h, g) <==> (joined_live(ops.drop_last(), base, h, g) || (h as int
                == base as int + count_joins(ops.drop_last()) as int && g == g0)),
{
    let dl = ops.drop_last();
    let n = ops.len() - 1;
    assert forall|h: u64| (#[trigger] not_left(ops, h)) <==> not_left(dl, h) by {
        if not_left(dl, h) {
            assert forall|j: int| 0 <= j < ops.len() implies (#[trigger] ops[j])
                != RegistryOp::Leave(h) by {
                if j < n {
                    assert(ops[j] == dl[j]);
                } else {
                    assert(ops[j] == ops.last());
                }
            }
        }
        if not_left(ops, h) {
            assert forall|j: int| 0 <= j < dl.len() implies (#[trigger] dl[j])
                != RegistryOp::Leave(h) by {
                assert(dl[j] == ops[j]);
            }
        }
    }
    assert forall|h: u64, g: ChannelGroup| #![trigger joined_live(ops, base, h, g)]
        joined_live(ops, base, h, g) <==> (joined_live(dl, base, h, g) || (h as int == base as int
            + count_joins(dl) as int && g == g0)) by {
        if joined_live(ops, base, h, g) {
            let i = choose|i: int|
                0 <= i < ops.len() && (#[trigger] ops[i]) == RegistryOp::Join(g) && h as int == base
                    as int + count_joins(ops.take(i)) as int && (forall|j: int|
                    i < j < ops.len() ==> (#[trigger] ops[j]) != RegistryOp::Leave(h));
            if i < n {
                assert(ops.take(i) =~= dl.take(i));
                assert(dl[i] == ops[i]);
                assert forall|j: int| i < j < dl.len() implies (#[trigger] dl[j])
                    != RegistryOp::Leave(h) by {
                    assert(dl[j] == ops[j]);
                }
                assert(joined_live(dl, base, h, g));
            } else {
                assert(ops.take(i) =~= dl);
                assert(ops[i] == ops.last());
            }
        }
        if joined_live(dl, base, h, g) {
            let i = choose|i: int|
                0 <= i < dl.len() && (#[trigger] dl[i]) == RegistryOp::Join(g) && h as int == base
                    as int + count_joins(dl.take(i)) as int && (forall|j: int|
                    i < j < dl.len() ==> (#[trigger] dl[j]) != RegistryOp::Leave(h));
            assert(ops[i] == dl[i]);
            assert(ops.take(i) =~= dl.take(i));
            assert forall|j: int| i < j < ops.len() implies (#[trigger] ops[j])
                != RegistryOp::Leave(h) by {
                if j < n {
                    assert(ops[j] == dl[j]);
                } else {
                    assert(ops[j] == ops.last());
                }
            }
            assert(joined_live(ops, base, h, g));
        }
        if h as int == base as int + count_joins(dl) as int && g == g0 {
            assert(ops[n] == ops.last());
            assert(ops.take(n) =~= dl);
            assert(h as int == base as int + count_joins(ops.take(n)) as int);
            assert(joined_live(ops, base, h, g));
        }
    }
}

/// Appending a leave to the operation list: the left handle is no longer
/// join-live and counts as left; everyone else is untouched.
proof fn lemma_ops_push_leave(ops: Seq<RegistryOp>, base: u64, h0: u64)
    requires
        ops.len() > 0,
        ops.last() == RegistryOp::Leave(h0),
    ensures
        forall|h: u64| (#[trigger] not_left(ops, h)) <==> (not_left(ops.drop_last(), h) && h
            != h0),
        forall|h: u64, g: ChannelGroup| #![trigger joined_live(ops, base, h, g)]
            joined_live(ops, base, h, g) <==> (joined_live(ops.drop_last(), base, h, g) && h != h0),
{
    let dl = ops.drop_last();
    let n = ops.len() - 1;
    assert forall|h: u64| (#[trigger] not_left(ops, h)) <==> (not_left(dl, h) && h != h0) by {
        if not_left(dl, h) && h != h0 {
            assert forall|j: int| 0 <= j < ops.len() implies (#[trigger] ops[j])
                != RegistryOp::Leave(h) by {
                if j < n {
                    assert(ops[j] == dl[j]);
                } else {
                    assert(ops[j] == ops.last());
                }
            }
        }
        if not_left(ops, h) {
            assert forall|j: int| 0 <= j < dl.len() implies (#[trigger] dl[j])
                != RegistryOp::Leave(h) by {
                assert(dl[j] == ops[j]);
            }
            assert(ops[n] == ops.last());
        }
    }
    assert forall|h: u64, g: ChannelGroup| #![trigger joined_live(ops, base, h, g)]
        joined_live(ops, base, h, g) <==> (joined_live(dl, base, h, g) && h != h0) by {
        if joined_live(ops, base, h, g) {
            let i = choose|i: int|
                0 <= i < ops.len() && (#[trigger] ops[i]) == RegistryOp::Join(g) && h as int == base
                    as int + count_joins(ops.take(i)) as int && (forall|j: int|
                    i < j < ops.len() ==> (#[trigger] ops[j]) != RegistryOp::Leave(h));
            assert(ops[n] == ops.last());
            assert(i < n);
            assert(ops.take(i) =~= dl.take(i));
            assert(dl[i] == ops[i]);
            assert forall|j: int| i < j < dl.len() implies (#[trigger] dl[j])
                != RegistryOp::Leave(h) by {
                assert(dl[j] == ops[j]);
            }
            assert(joined_live(dl, base, h, g));
            assert(h != h0);
        }
        if joined_live(dl, base, h, g) && h != h0 {
            let i = choose|i: int|
                0 <= i < dl.len() && (#[trigger] dl[i]) == RegistryOp::Join(g) && h as int == base
                    as int + count_joins(dl.take(i)) as int && (forall|j: int|
                    i < j < dl.len() ==> (#[trigger] dl[j]) != RegistryOp::Leave(h));
            assert(ops[i] == dl[i]);
            assert(ops.take(i) =~= dl.take(i));
            assert forall|j: int| i < j < ops.len() implies (#[trigger] ops[j])
                != RegistryOp::Leave(h) by {
                if j < n {
                    assert(ops[j] == dl[j]);
                } else {
                    assert(ops[j] == ops.last());
                }
            }
            assert(joined_live(ops, base, h, g));
        }
    }
}

/// The membership law: after any sequence of join and leave operations, a
/// handle is live in a group exactly when either it was live at the start
/// and no operation left it, or some join into the group was handed that
/// handle and no later operation left it. Handles are handed out in call
/// order, counting the joins from the starting handle, and no two live
/// entries ever share a handle, so the live membership of a group is the
/// joins minus the leaves, applied in call order; a leave of an unknown
/// handle changes nothing and touches no other member.
pub proof fn lemma_registry_membership(s0: RegistryModel, ops: Seq<RegistryOp>)
    requires
        reg_wf(s0),
        s0.next_handle as int + count_joins(ops) as int <= u64::MAX as int,
    ensures
        reg_wf(run_ops(s0, ops)),
        run_ops(s0, ops).next_handle as int == s0.next_handle as int + count_joins(ops) as int,
        forall|h: u64, g: ChannelGroup| #![trigger in_group(run_ops(s0, ops), h, g)]
            in_group(run_ops(s0, ops), h, g) <==> ((in_group(s0, h, g) && not_left(ops, h))
                || joined_live(ops, s0.next_handle, h, g)),
    decreases ops.len(),
{
    let base = s0.next_handle;
    if ops.len() == 0 {
        assert forall|h: u64, g: ChannelGroup| #![trigger in_group(run_ops(s0, ops), h, g)]
            in_group(run_ops(s0, ops), h, g) <==> ((in_group(s0, h, g) && not_left(ops, h))
                || joined_live(ops, base, h, g)) by {
            if joined_live(ops, base, h, g) {
                let i = choose|i: int|
                    0 <= i < ops.len() && (#[trigger] ops[i]) == RegistryOp::Join(g) && h as int
                        == base as int + count_joins(ops.take(i)) as int && (forall|j: int|
                        i < j < ops.len() ==> (#[trigger] ops[j]) != RegistryOp::Leave(h));
            }
        }
    } else {
        let dl = ops.drop_last();
        lemma_registry_membership(s0, dl);
        let s1 = run_ops(s0, dl);
        let s2 = run_ops(s0, ops);
        match ops.last() {
            RegistryOp::Join(g0) => {
                lemma_join_in_group(s1, g0);
                lemma_ops_push_join(ops, base, g0);
                assert forall|h: u64, g: ChannelGroup| #![trigger in_group(s2, h, g)]
                    in_group(s2, h, g) <==> ((in_group(s0, h, g) && not_left(ops, h))
                        || joined_live(ops, base, h, g)) by {
                    assert(in_group(s2, h, g) <==> (in_group(s1, h, g) || (h == s1.next_handle && g
                        == g0)));
                    assert(not_left(ops, h) <==> not_left(dl, h));
                    assert(joined_live(ops, base, h, g) <==> (joined_live(dl, base, h, g) || (h
                        as int == base as int + count_joins(dl) as int && g == g0)));
                }
            },
            RegistryOp::Leave(h0) => {
                lemma_leave_in_group(s1, h0);
                lemma_ops_push_leave(ops, base, h0);
                assert forall|h: u64, g: ChannelGroup| #![trigger in_group(s2, h, g)]
                    in_group(s2, h, g) <==> ((in_group(s0, h, g) && not_left(ops, h))
                        || joined_live(ops, base, h, g)) by {
                    assert(in_group(s2, h, g) <==> (in_group(s1, h, g) && h != h0));
                    assert(not_left(ops, h) <==> (not_left(dl, h) && h != h0));
                    assert(joined_live(ops, base, h, g) <==> (joined_live(dl, base, h, g) && h
                        != h0));
                }
            },
        }
    }
}

} // verus!
