//! Source membership, process-local follower sessions, and conservative
//! retention.
use crate::error::WalError;
use crate::ingest::{IngestView, JournaledFollower};
use crate::range;
use crate::range::{RangeView, WalFrameRange, WalRangeLimits};
use crate::segment;
use crate::segment::SegmentImage;
use crate::transport::{FetchResponse, PumpView, ReplicationPump, TransportError};
use crate::wal::{Wal, WalView};
use vstd::prelude::*;
use vstd::string::*;

verus! {

#[derive(Clone, Debug, PartialEq, Eq)]
pub enum SessionError {
    UnknownMember(String),
    DuplicateMember(String),
    HistoryMismatch,
    PoisonedFollower,
    Ahead { applied: u64, published: u64 },
}

/// Informational retention policy, not authorization to delete log files.
#[derive(Clone, Copy, Debug, PartialEq, Eq)]
pub struct RetentionPlan {
    pub leader_replay_floor: u64,
    pub follower_floor: Option<u64>,
    pub candidate_cutoff: u64,
    /// Currently zero: the original prefix is required to reconstruct fences.
    pub deletion_cutoff: u64,
}

struct Member {
    name: String,
    session: Option<u64>,
    consumed_seq: u64,
}

/// What a source knows of a member.
#[verifier::ext_equal]
pub struct MemberView {
    pub session: Option<u64>,
    pub consumed_seq: u64,
}

/// What identifies a session: the member, the source owner that issued it and
/// its number there.
#[verifier::ext_equal]
pub struct Token {
    pub member: Seq<char>,
    pub owner: u64,
    pub session: u64,
}

/// A source's membership as mathematical values.
#[verifier::ext_equal]
pub struct ReplicatedView {
    pub history: Seq<u8>,
    pub owner: u64,
    pub members: Map<Seq<char>, MemberView>,
    pub next_session: u64,
}

/// A member without a session, which pins sequence zero.
pub open spec fn fresh_member() -> MemberView {
    MemberView { session: None, consumed_seq: 0 }
}

impl ReplicatedView {
    /// Sessions in use were issued.
    pub open spec fn wf(self) -> bool {
        forall|m: Seq<char>|
            #[trigger] self.members.contains_key(m) ==> (self.members[m].session matches Some(s)
                ==> s < self.next_session)
    }

    /// The session is the current one of its member.
    pub open spec fn valid(self, token: Token) -> bool {
        &&& token.owner == self.owner
        &&& self.members.contains_key(token.member)
        &&& self.members[token.member].session == Some(token.session)
    }

    pub open spec fn added(self, member: Seq<char>) -> ReplicatedView {
        ReplicatedView { members: self.members.insert(member, fresh_member()), ..self }
    }

    pub open spec fn removed(self, member: Seq<char>) -> ReplicatedView {
        ReplicatedView { members: self.members.remove(member), ..self }
    }

    /// The session that a join would issue.
    pub open spec fn next_token(self, member: Seq<char>) -> Token {
        Token { member, owner: self.owner, session: self.next_session }
    }

    pub open spec fn joined(self, member: Seq<char>, applied: u64) -> ReplicatedView {
        ReplicatedView {
            members: self.members.insert(
                member,
                MemberView { session: Some(self.next_session), consumed_seq: applied },
            ),
            next_session: (self.next_session + 1) as u64,
            ..self
        }
    }

    /// A valid request reports progress, which never goes back.
    pub open spec fn reported(self, member: Seq<char>, from_seq: u64) -> ReplicatedView {
        let m = self.members[member];
        ReplicatedView {
            members: self.members.insert(
                member,
                MemberView {
                    consumed_seq: if from_seq > m.consumed_seq {
                        from_seq
                    } else {
                        m.consumed_seq
                    },
                    ..m
                },
            ),
            ..self
        }
    }

    /// What a request at `from_seq` of the session `token` comes to, once the
    /// log was read.
    pub open spec fn answered(
        self,
        token: Token,
        from_seq: u64,
        read: Result<RangeView, WalError>,
    ) -> (ReplicatedView, Result<(Seq<u8>, RangeView), TransportError>) {
        match read {
            Err(e) => (self, Err(TransportError::Source(e))),
            Ok(range) => if self.valid(token) {
                (self.reported(token.member, from_seq), Ok((self.history, range)))
            } else {
                (self, Err(TransportError::RejoinRequired))
            },
        }
    }

    /// `floor` is the least progress of any member, if there is one.
    pub open spec fn is_floor(self, floor: Option<u64>) -> bool {
        match floor {
            None => forall|m: Seq<char>| !self.members.contains_key(m),
            Some(least) => {
                &&& exists|m: Seq<char>|
                    #![trigger self.members.contains_key(m)]
                    self.members.contains_key(m) && self.members[m].consumed_seq == least
                &&& forall|m: Seq<char>| #[trigger]
                    self.members.contains_key(m) ==> least <= self.members[m].consumed_seq
            },
        }
    }
}

spec fn member_view(m: Member) -> MemberView {
    MemberView { session: m.session, consumed_seq: m.consumed_seq }
}

spec fn named(members: Seq<Member>, name: Seq<char>) -> bool {
    exists|i: int| 0 <= i < members.len() && (#[trigger] members[i]).name@ == name
}

spec fn place(members: Seq<Member>, name: Seq<char>) -> int {
    choose|i: int| 0 <= i < members.len() && (#[trigger] members[i]).name@ == name
}

spec fn distinct(members: Seq<Member>) -> bool {
    forall|i: int, j: int|
        #![trigger members[i], members[j]]
        0 <= i < j < members.len() ==> members[i].name@ != members[j].name@
}

spec fn as_map(members: Seq<Member>) -> Map<Seq<char>, MemberView> {
    Map::new(
        |name: Seq<char>| named(members, name),
        |name: Seq<char>| member_view(members[place(members, name)]),
    )
}

proof fn lemma_place(members: Seq<Member>, i: int)
    requires
        distinct(members),
        0 <= i < members.len(),
    ensures
        named(members, members[i].name@),
        place(members, members[i].name@) == i,
        as_map(members).contains_key(members[i].name@),
        as_map(members)[members[i].name@] == member_view(members[i]),
{
    let j = place(members, members[i].name@);
    assert(members[i].name@ == members[i].name@);
    assert(members[j].name@ == members[i].name@);
}

proof fn lemma_update(before: Seq<Member>, after: Seq<Member>, i: int)
    requires
        distinct(before),
        0 <= i < before.len(),
        after.len() == before.len(),
        after[i].name@ == before[i].name@,
        forall|k: int| 0 <= k < before.len() && k != i ==> after[k] == before[k],
    ensures
        distinct(after),
        as_map(after) == as_map(before).insert(before[i].name@, member_view(after[i])),
{
    assert(distinct(after)) by {
        assert forall|a: int, b: int|
            #![trigger after[a], after[b]]
            0 <= a < b < after.len() implies after[a].name@ != after[b].name@ by {
            assert(before[a].name@ != before[b].name@);
        }
    }
    let want = as_map(before).insert(before[i].name@, member_view(after[i]));
    assert forall|n: Seq<char>| as_map(after).contains_key(n) <==> want.contains_key(n) by {
        if named(after, n) {
            let k = place(after, n);
            assert(before[k].name@ == n);
        }
        if named(before, n) {
            let k = place(before, n);
            assert(after[k].name@ == n);
        }
        assert(after[i].name@ == before[i].name@);
    }
    assert forall|n: Seq<char>| as_map(after).contains_key(n) implies as_map(after)[n]
        == want[n] by {
        let k = place(after, n);
        lemma_place(after, k);
        lemma_place(before, k);
    }
    assert(as_map(after) =~= want);
}

proof fn lemma_push(before: Seq<Member>, m: Member)
    requires
        distinct(before),
        !named(before, m.name@),
    ensures
        distinct(before.push(m)),
        as_map(before.push(m)) == as_map(before).insert(m.name@, member_view(m)),
{
    let after = before.push(m);
    assert forall|a: int, b: int|
        #![trigger after[a], after[b]]
        0 <= a < b < after.len() implies after[a].name@ != after[b].name@ by {
        assert(after[a] == before[a]);
        if b < before.len() {
            assert(before[a].name@ != before[b].name@);
        } else {
            assert(before[a].name@ != m.name@);
        }
    }
    let want = as_map(before).insert(m.name@, member_view(m));
    assert forall|n: Seq<char>| as_map(after).contains_key(n) <==> want.contains_key(n) by {
        if named(after, n) {
            let k = place(after, n);
            if k < before.len() {
                assert(before[k].name@ == n);
            }
        }
        if named(before, n) {
            let k = place(before, n);
            assert(after[k].name@ == n);
        }
        assert(after[before.len() as int].name@ == m.name@);
    }
    assert forall|n: Seq<char>| as_map(after).contains_key(n) implies as_map(after)[n]
        == want[n] by {
        let k = place(after, n);
        lemma_place(after, k);
        if k < before.len() {
            assert(after[k] == before[k]);
            lemma_place(before, k);
            assert(named(before, n));
        }
    }
    assert(as_map(after) =~= want);
}

proof fn lemma_remove(before: Seq<Member>, i: int)
    requires
        distinct(before),
        0 <= i < before.len(),
    ensures
        distinct(before.remove(i)),
        as_map(before.remove(i)) == as_map(before).remove(before[i].name@),
{
    let after = before.remove(i);
    assert forall|a: int, b: int|
        #![trigger after[a], after[b]]
        0 <= a < b < after.len() implies after[a].name@ != after[b].name@ by {
        let a0 = if a < i { a } else { a + 1 };
        let b0 = if b < i { b } else { b + 1 };
        assert(before[a0].name@ != before[b0].name@);
    }
    let want = as_map(before).remove(before[i].name@);
    assert forall|n: Seq<char>| as_map(after).contains_key(n) <==> want.contains_key(n) by {
        if named(after, n) {
            let k = place(after, n);
            let k0 = if k < i { k } else { k + 1 };
            assert(before[k0].name@ == n);
            lemma_place(before, k0);
            lemma_place(before, i);
        }
        if named(before, n) && n != before[i].name@ {
            let k = place(before, n);
            let k1 = if k < i { k } else { k - 1 };
            assert(after[k1].name@ == n);
        }
    }
    assert forall|n: Seq<char>| as_map(after).contains_key(n) implies as_map(after)[n]
        == want[n] by {
        let k = place(after, n);
        lemma_place(after, k);
        let k0 = if k < i { k } else { k + 1 };
        assert(after[k] == before[k0]);
        lemma_place(before, k0);
    }
    assert(as_map(after) =~= want);
}

/// Client issued only by `Replicated::join`, for one member, session and
/// source. A raw request position still relies on the caller's applied-progress
/// discipline; the pump supplies it from its healthy journaled follower.
pub struct SessionFetch {
    member: String,
    owner: u64,
    session: u64,
}

impl SessionFetch {
    pub closed spec fn token(&self) -> Token {
        Token { member: self.member@, owner: self.owner, session: self.session }
    }

    /// The member that this session belongs to.
    pub fn member(&self) -> (member: &String)
        ensures
            member@ == self.token().member,
    {
        &self.member
    }
}

/// Source membership, explicitly configured. Restart must supply the complete
/// membership again; every member starts at zero until its journaled follower
/// rejoins. Disconnect never removes a member.
///
/// Sessions are in-process capabilities, not serialized credentials. Each join
/// replaces the capability, so an old client cannot update a new session, even
/// after removal and re-addition, or on another source owner.
pub struct Replicated {
    history: [u8; 16],
    owner: u64,
    members: Vec<Member>,
    next_session: u64,
}

impl View for Replicated {
    type V = ReplicatedView;

    closed spec fn view(&self) -> ReplicatedView {
        ReplicatedView {
            history: self.history@,
            owner: self.owner,
            members: as_map(self.members@),
            next_session: self.next_session,
        }
    }
}

/// The first of `names` that occurs before it, if one does.
pub open spec fn first_repeat(names: Seq<String>, i: int) -> Option<int>
    decreases names.len() - i,
{
    if i < 0 || i >= names.len() {
        None
    } else if exists|j: int| 0 <= j < i && (#[trigger] names[j])@ == names[i]@ {
        Some(i)
    } else {
        first_repeat(names, i + 1)
    }
}

/// The membership of `names[..n]`, all without a session.
pub open spec fn configured(names: Seq<String>, n: int) -> Map<Seq<char>, MemberView>
    decreases n,
{
    if n <= 0 {
        Map::empty()
    } else {
        configured(names, n - 1).insert(names[n - 1]@, fresh_member())
    }
}

impl Replicated {
    /// No member is configured twice, and sessions in use were issued.
    pub closed spec fn wf(&self) -> bool {
        distinct(self.members@) && self@.wf()
    }

    /// Configures the members of a source before it serves followers. `owner`
    /// is a number that no other source of this process has; `history`
    /// identifies the configured authoritative log history and is not an
    /// authentication token. The log keeps its whole prefix from then on.
    pub fn new(wal: &mut Wal, history: [u8; 16], members: &Vec<String>, owner: u64) -> (r: Result<
        Replicated,
        SessionError,
    >)
        ensures
            match first_repeat(members@, 0) {
                Some(i) => {
                    &&& r matches Err(SessionError::DuplicateMember(name)) && name@ == members@[i]@
                    &&& final(wal)@ == old(wal)@
                },
                None => {
                    &&& r matches Ok(source) && source.wf() && source@ == (ReplicatedView {
                        history: history@,
                        owner,
                        members: configured(members@, members@.len() as int),
                        next_session: 0,
                    })
                    &&& final(wal)@ == (WalView { pinned: true, ..old(wal)@ })
                },
            },
    {
        let mut source = Replicated { history, owner, members: Vec::new(), next_session: 0 };
        assert(source@.members =~= Map::empty());
        let mut i: usize = 0;
        while i < members.len()
            invariant
                i <= members@.len(),
                source.wf(),
                source@ == (ReplicatedView {
                    history: history@,
                    owner,
                    members: configured(members@, i as int),
                    next_session: 0,
                }),
                forall|n: Seq<char>|
                    #![trigger source@.members.contains_key(n)]
                    source@.members.contains_key(n) <==> exists|j: int|
                        0 <= j < i && (#[trigger] members@[j])@ == n,
                first_repeat(members@, 0) == first_repeat(members@, i as int),
            decreases members@.len() - i,
        {
            let ghost before = source@;
            if let Err(e) = source.add_member(members[i].clone()) {
                assert(before.members.contains_key(members@[i as int]@));
                return Err(e);
            }
            assert(!before.members.contains_key(members@[i as int]@));
            i = i + 1;
            assert forall|n: Seq<char>|
                #![trigger source@.members.contains_key(n)]
                source@.members.contains_key(n) <==> exists|j: int|
                    0 <= j < i && (#[trigger] members@[j])@ == n by {
                if n == members@[i - 1]@ {
                    assert(members@[i - 1]@ == n);
                } else {
                    assert(source@.members.contains_key(n) <==> before.members.contains_key(n));
                }
            }
        }
        wal.pin_replication_prefix();
        Ok(source)
    }

    /// The number of sessions issued so far.
    pub fn sessions_issued(&self) -> (n: u64)
        ensures
            n == self@.next_session,
    {
        self.next_session
    }

    fn find(&self, name: &String) -> (r: Option<usize>)
        requires
            distinct(self.members@),
        ensures
            match r {
                Some(i) => i < self.members@.len() && self.members@[i as int].name@ == name@
                    && self@.members.contains_key(name@) && self@.members[name@] == member_view(
                    self.members@[i as int],
                ),
                None => !self@.members.contains_key(name@) && !named(self.members@, name@),
            },
    {
        let mut i: usize = 0;
        while i < self.members.len()
            invariant
                i <= self.members@.len(),
                distinct(self.members@),
                forall|k: int| 0 <= k < i ==> (#[trigger] self.members@[k]).name@ != name@,
            decreases self.members@.len() - i,
        {
            if self.members[i].name == *name {
                proof {
                    lemma_place(self.members@, i as int);
                }
                return Some(i);
            }
            i = i + 1;
        }
        None
    }

    /// Explicit membership addition. A member with no session pins zero.
    pub fn add_member(&mut self, member: String) -> (r: Result<(), SessionError>)
        requires
            old(self).wf(),
        ensures
            final(self).wf(),
            old(self)@.members.contains_key(member@) ==> (r matches Err(
                SessionError::DuplicateMember(name),
            ) && name@ == member@ && final(self)@ == old(self)@),
            !old(self)@.members.contains_key(member@) ==> r is Ok && final(self)@ == old(
                self,
            )@.added(member@),
    {
        if self.find(&member).is_some() {
            return Err(SessionError::DuplicateMember(member));
        }
        let entry = Member { name: member, session: None, consumed_seq: 0 };
        proof {
            lemma_push(self.members@, entry);
        }
        self.members.push(entry);
        Ok(())
    }

    /// Explicit policy removal, invalidating all of this member's old clients.
    pub fn remove_member(&mut self, member: &str) -> (r: Result<(), SessionError>)
        requires
            old(self).wf(),
        ensures
            final(self).wf(),
            !old(self)@.members.contains_key(member@) ==> (r matches Err(
                SessionError::UnknownMember(name),
            ) && name@ == member@ && final(self)@ == old(self)@),
            old(self)@.members.contains_key(member@) ==> r is Ok && final(self)@ == old(
                self,
            )@.removed(member@),
    {
        let name = String::from_str(member);
        match self.find(&name) {
            None => Err(SessionError::UnknownMember(name)),
            Some(i) => {
                proof {
                    lemma_remove(self.members@, i as int);
                }
                let _ = self.members.remove(i);
                Ok(())
            },
        }
    }

    /// Binds a new session to this exact owned follower and its reconstructed
    /// progress. `published` is the source's durable tail. A failed join leaves
    /// any existing session unchanged; the follower handle is dropped on error,
    /// its journal remains intact.
    pub fn join(&mut self, member: &str, follower: JournaledFollower, published: u64) -> (r: Result<
        ReplicationPump<SessionFetch>,
        SessionError,
    >)
        requires
            old(self).wf(),
            old(self)@.next_session < u64::MAX,
        ensures
            final(self).wf(),
            r is Err ==> final(self)@ == old(self)@,
            match join_error(old(self)@, member@, follower.state(), published) {
                Some(JoinError::History) => r == Err::<
                    ReplicationPump<SessionFetch>,
                    SessionError,
                >(SessionError::HistoryMismatch),
                Some(JoinError::Poisoned) => r == Err::<
                    ReplicationPump<SessionFetch>,
                    SessionError,
                >(SessionError::PoisonedFollower),
                Some(JoinError::Ahead) => r == Err::<ReplicationPump<SessionFetch>, SessionError>(
                    SessionError::Ahead { applied: follower.state().follower.applied, published },
                ),
                Some(JoinError::Unknown) => r matches Err(SessionError::UnknownMember(name))
                    && name@ == member@,
                None => r matches Ok(pump) && pump@ == (PumpView {
                    follower: follower.state(),
                    stopped: false,
                }) && pump.client().token() == old(self)@.next_token(member@) && final(self)@
                    == old(self)@.joined(member@, follower.state().follower.applied),
            },
    {
        if !self.same_history(&follower) {
            return Err(SessionError::HistoryMismatch);
        }
        if follower.is_poisoned() {
            return Err(SessionError::PoisonedFollower);
        }
        let applied: u64 = follower.applied_seq();
        if applied > published {
            return Err(SessionError::Ahead { applied, published });
        }
        let name = String::from_str(member);
        let i: usize = match self.find(&name) {
            None => {
                return Err(SessionError::UnknownMember(name));
            },
            Some(i) => i,
        };
        let session: u64 = self.next_session;
        let ghost before = self.members@;
        let kept = self.members[i].name.clone();
        self.members.set(i, Member { name: kept, session: Some(session), consumed_seq: applied });
        self.next_session = session + 1;
        proof {
            lemma_update(before, self.members@, i as int);
        }
        Ok(ReplicationPump::new(follower, SessionFetch { member: name, owner: self.owner, session }))
    }

    fn same_history(&self, follower: &JournaledFollower) -> (same: bool)
        ensures
            same == (follower.state().history == self@.history),
    {
        let theirs = follower.source_history();
        let mut i: usize = 0;
        while i < 16
            invariant
                i <= 16,
                theirs@ == follower.state().history,
                forall|k: int| 0 <= k < i ==> theirs@[k] == self.history@[k],
            decreases 16 - i,
        {
            if theirs[i] != self.history[i] {
                return false;
            }
            i = i + 1;
        }
        assert(theirs@ =~= self.history@);
        true
    }

    /// Last valid request report (or joined baseline), never a response's end.
    pub fn member_progress(&self, member: &str) -> (r: Option<u64>)
        requires
            self.wf(),
        ensures
            r == if self@.members.contains_key(member@) {
                Some(self@.members[member@].consumed_seq)
            } else {
                None
            },
    {
        match self.find(&String::from_str(member)) {
            Some(i) => Some(self.members[i].consumed_seq),
            None => None,
        }
    }

    fn follower_floor(&self) -> (floor: Option<u64>)
        requires
            self.wf(),
        ensures
            self@.is_floor(floor),
    {
        let n: usize = self.members.len();
        if n == 0 {
            return None;
        }
        let mut at: usize = 0;
        let mut i: usize = 1;
        while i < n
            invariant
                n == self.members@.len(),
                at < i <= n,
                forall|k: int|
                    0 <= k < i ==> self.members@[at as int].consumed_seq <= (
                    #[trigger] self.members@[k]).consumed_seq,
            decreases n - i,
        {
            if self.members[i].consumed_seq < self.members[at].consumed_seq {
                at = i;
            }
            i = i + 1;
        }
        proof {
            lemma_place(self.members@, at as int);
            assert(self@.members.contains_key(self.members@[at as int].name@));
            assert forall|m: Seq<char>| #[trigger] self@.members.contains_key(m) implies
                self.members@[at as int].consumed_seq <= self@.members[m].consumed_seq by {
                let k = place(self.members@, m);
                lemma_place(self.members@, k);
            }
        }
        Some(self.members[at].consumed_seq)
    }

    /// Calculates a conservative proposal. Supply a zero floor without a
    /// verified baseline; otherwise its recovery replay floor, never a
    /// checkpoint's flush sequence. `published` is the source's durable tail.
    /// The floor is not validated and gives no authority to delete.
    pub fn retention_plan(&self, leader_replay_floor: u64, published: u64) -> (plan: RetentionPlan)
        requires
            self.wf(),
        ensures
            plan.leader_replay_floor == leader_replay_floor,
            self@.is_floor(plan.follower_floor),
            plan.candidate_cutoff == cutoff(leader_replay_floor, published, plan.follower_floor),
            plan.deletion_cutoff == 0,
            plan == proposed(leader_replay_floor, published, plan.follower_floor),
    {
        let follower_floor = self.follower_floor();
        let mut candidate_cutoff: u64 = leader_replay_floor;
        if published < candidate_cutoff {
            candidate_cutoff = published;
        }
        if let Some(floor) = follower_floor {
            if floor < candidate_cutoff {
                candidate_cutoff = floor;
            }
        }
        RetentionPlan { leader_replay_floor, follower_floor, candidate_cutoff, deletion_cutoff: 0 }
    }

    fn session_member(&self, fetch: &SessionFetch) -> (r: Option<usize>)
        requires
            self.wf(),
        ensures
            r is Some <==> self@.valid(fetch.token()),
            r matches Some(i) ==> i < self.members@.len() && self.members@[i as int].name@
                == fetch.token().member && self@.members[fetch.token().member] == member_view(
                self.members@[i as int],
            ),
    {
        if fetch.owner != self.owner {
            return None;
        }
        match self.find(&fetch.member) {
            None => None,
            Some(i) => match self.members[i].session {
                Some(session) => if session == fetch.session {
                    Some(i)
                } else {
                    None
                },
                None => None,
            },
        }
    }

    /// Refuses a session that is no longer current. Checked before the log is
    /// read, so that membership need not be held meanwhile.
    pub fn check_session(&self, fetch: &SessionFetch) -> (r: Result<(), TransportError>)
        requires
            self.wf(),
        ensures
            r == if self@.valid(fetch.token()) {
                Ok::<(), TransportError>(())
            } else {
                Err(TransportError::RejoinRequired)
            },
    {
        if self.session_member(fetch).is_some() {
            Ok(())
        } else {
            Err(TransportError::RejoinRequired)
        }
    }

    /// Completes a request at `from_seq` once the log was read. The session is
    /// checked again: rejoin or removal may have revoked it during the read.
    pub fn fetch_session_with(
        &mut self,
        fetch: &SessionFetch,
        from_seq: u64,
        read: Result<WalFrameRange, WalError>,
    ) -> (r: Result<FetchResponse, TransportError>)
        requires
            old(self).wf(),
        ensures
            final(self).wf(),
            match read {
                Err(e) => r == Err::<FetchResponse, TransportError>(TransportError::Source(e))
                    && final(self)@ == old(self)@,
                Ok(range) => if old(self)@.valid(fetch.token()) {
                    r matches Ok(response) && response.history@ == old(self)@.history
                        && response.range == range && final(self)@ == old(self)@.reported(
                        fetch.token().member,
                        from_seq,
                    )
                } else {
                    r == Err::<FetchResponse, TransportError>(TransportError::RejoinRequired)
                        && final(self)@ == old(self)@
                },
            },
            (final(self)@, response_view(r)) == old(self)@.answered(
                fetch.token(),
                from_seq,
                match read {
                    Ok(range) => Ok(range@),
                    Err(e) => Err(e),
                },
            ),
    {
        let range = match read {
            Err(e) => {
                return Err(TransportError::Source(e));
            },
            Ok(range) => range,
        };
        let i: usize = match self.session_member(fetch) {
            None => {
                return Err(TransportError::RejoinRequired);
            },
            Some(i) => i,
        };
        let ghost before = self.members@;
        let consumed: u64 = self.members[i].consumed_seq;
        let consumed_seq: u64 = if from_seq > consumed {
            from_seq
        } else {
            consumed
        };
        let name = self.members[i].name.clone();
        let session = self.members[i].session;
        self.members.set(i, Member { name, session, consumed_seq });
        proof {
            lemma_update(before, self.members@, i as int);
        }
        Ok(FetchResponse { history: self.history, range })
    }

    /// Serves a request of a session from the source's log.
    pub fn fetch_session(
        &mut self,
        fetch: &SessionFetch,
        from_seq: u64,
        limits: WalRangeLimits,
        source: &Wal,
        images: &Vec<SegmentImage>,
    ) -> (r: Result<FetchResponse, TransportError>)
        requires
            old(self).wf(),
            segment::images_wf(images@),
        ensures
            final(self).wf(),
            if !old(self)@.valid(fetch.token()) {
                r == Err::<FetchResponse, TransportError>(TransportError::RejoinRequired)
                    && final(self)@ == old(self)@
            } else {
                match range::range_read(source@, from_seq, limits, images@) {
                    Err(e) => r == Err::<FetchResponse, TransportError>(TransportError::Source(e))
                        && final(self)@ == old(self)@,
                    Ok(range) => r matches Ok(response) && response.history@ == old(self)@.history
                        && response.range@ == range && final(self)@ == old(self)@.reported(
                        fetch.token().member,
                        from_seq,
                    ),
                }
            },
    {
        if let Err(e) = self.check_session(fetch) {
            return Err(e);
        }
        let read = source.records_from(from_seq, limits, images);
        self.fetch_session_with(fetch, from_seq, read)
    }
}

/// A reply by the history and the range that it holds.
pub open spec fn response_view(r: Result<FetchResponse, TransportError>) -> Result<
    (Seq<u8>, RangeView),
    TransportError,
> {
    match r {
        Ok(response) => Ok((response.history@, response.range@)),
        Err(e) => Err(e),
    }
}

/// The retention that is proposed where `floor` is the followers' floor.
pub open spec fn proposed(leader: u64, published: u64, floor: Option<u64>) -> RetentionPlan {
    RetentionPlan {
        leader_replay_floor: leader,
        follower_floor: floor,
        candidate_cutoff: cutoff(leader, published, floor),
        deletion_cutoff: 0,
    }
}

/// A proposal tells the floors that it was made from and authorizes no
/// deletion.
pub proof fn law_retention_authorizes_no_deletion(
    leader: u64,
    published: u64,
    floor: Option<u64>,
)
    ensures
        ({
            let plan = proposed(leader, published, floor);
            &&& plan.deletion_cutoff == 0
            &&& plan.leader_replay_floor == leader
            &&& plan.follower_floor == floor
            &&& plan.candidate_cutoff <= leader && plan.candidate_cutoff <= published
            &&& floor matches Some(least) ==> plan.candidate_cutoff <= least
            &&& plan.candidate_cutoff == leader || plan.candidate_cutoff == published || floor
                == Some(plan.candidate_cutoff)
        }),
{
}

/// A request is answered exactly for a session that is current, with the range
/// that was read under the source's own history; only then does it count as
/// progress.
pub proof fn law_only_current_sessions_are_answered(
    source: ReplicatedView,
    token: Token,
    from_seq: u64,
    read: Result<RangeView, WalError>,
)
    ensures
        ({
            let (after, r) = source.answered(token, from_seq, read);
            &&& r is Ok <==> read is Ok && source.valid(token)
            &&& r matches Ok((history, range)) ==> history == source.history && read == Ok::<
                RangeView,
                WalError,
            >(range)
            &&& r is Err ==> after == source
            &&& read matches Err(e) ==> r == Err::<(Seq<u8>, RangeView), TransportError>(
                TransportError::Source(e),
            )
            &&& read is Ok && !source.valid(token) ==> r == Err::<
                (Seq<u8>, RangeView),
                TransportError,
            >(TransportError::RejoinRequired)
            &&& r is Ok ==> after.members[token.member].consumed_seq >= from_seq && after.valid(
                token,
            )
        }),
{
}

/// Why a join is refused.
pub enum JoinError {
    History,
    Poisoned,
    Ahead,
    Unknown,
}

/// The first reason, in order, to refuse a join.
pub open spec fn join_error(
    source: ReplicatedView,
    member: Seq<char>,
    follower: IngestView,
    published: u64,
) -> Option<JoinError> {
    if follower.history != source.history {
        Some(JoinError::History)
    } else if follower.follower.poisoned {
        Some(JoinError::Poisoned)
    } else if follower.follower.applied > published {
        Some(JoinError::Ahead)
    } else if !source.members.contains_key(member) {
        Some(JoinError::Unknown)
    } else {
        None
    }
}

/// The least of the leader's floor, the durable tail and the followers' floor.
pub open spec fn cutoff(leader: u64, published: u64, followers: Option<u64>) -> u64 {
    let own = if published < leader {
        published
    } else {
        leader
    };
    match followers {
        Some(floor) => if floor < own {
            floor
        } else {
            own
        },
        None => own,
    }
}

/// A candidate cutoff exceeds neither the leader's floor nor the durable tail
/// nor the progress of any member.
pub proof fn law_cutoff_respects_every_floor(
    source: ReplicatedView,
    leader: u64,
    published: u64,
    followers: Option<u64>,
    member: Seq<char>,
)
    requires
        source.is_floor(followers),
    ensures
        cutoff(leader, published, followers) <= leader,
        cutoff(leader, published, followers) <= published,
        source.members.contains_key(member) ==> cutoff(leader, published, followers)
            <= source.members[member].consumed_seq,
{
}

/// Joining makes the issued session the only valid one of its member.
pub proof fn law_join_replaces_session(
    source: ReplicatedView,
    member: Seq<char>,
    applied: u64,
    token: Token,
)
    requires
        token.member == member,
    ensures
        source.joined(member, applied).valid(token) <==> token == source.next_token(member),
{
}

/// Removing a member, or adding one, leaves it without a valid session.
pub proof fn law_membership_change_revokes(source: ReplicatedView, member: Seq<char>, token: Token)
    requires
        token.member == member,
    ensures
        !source.removed(member).valid(token),
        !source.added(member).valid(token),
        !source.removed(member).added(member).valid(token),
{
}

/// A session that was issued and is no longer valid never becomes valid again,
/// whatever is joined, added, removed or reported.
pub proof fn law_revoked_session_stays_revoked(
    source: ReplicatedView,
    token: Token,
    member: Seq<char>,
    position: u64,
)
    requires
        token.session < source.next_session < u64::MAX,
        !source.valid(token),
    ensures
        !source.joined(member, position).valid(token),
        !source.added(member).valid(token),
        !source.removed(member).valid(token),
        source.members.contains_key(member) ==> !source.reported(member, position).valid(token),
{
}

/// A session of one source owner is never valid at another.
pub proof fn law_session_is_bound_to_its_owner(
    issuer: ReplicatedView,
    other: ReplicatedView,
    token: Token,
)
    requires
        issuer.valid(token),
        issuer.owner != other.owner,
    ensures
        !other.valid(token),
{
}

/// Reporting touches no other member and never takes progress back.
pub proof fn law_report_is_monotone(
    source: ReplicatedView,
    member: Seq<char>,
    from_seq: u64,
    other: Seq<char>,
)
    requires
        source.members.contains_key(member),
        source.members.contains_key(other),
    ensures
        source.reported(member, from_seq).members.contains_key(other),
        source.reported(member, from_seq).members[other].consumed_seq
            >= source.members[other].consumed_seq,
        other != member ==> source.reported(member, from_seq).members[other]
            == source.members[other],
{
}

/// A candidate cutoff is as far as the floors allow: it is one of them.
pub proof fn law_cutoff_is_one_of_the_floors(leader: u64, published: u64, followers: Option<u64>)
    ensures
        ({
            let cut = cutoff(leader, published, followers);
            cut == leader || cut == published || followers == Some(cut)
        }),
{
}

/// A floor is the progress of some member, and no member is behind it; without
/// members there is none.
pub proof fn law_floor_is_the_least_progress(
    source: ReplicatedView,
    floor: Option<u64>,
    member: Seq<char>,
)
    requires
        source.is_floor(floor),
    ensures
        floor is None ==> !source.members.contains_key(member),
        source.members.contains_key(member) ==> (floor matches Some(least) && least
            <= source.members[member].consumed_seq),
        floor matches Some(least) ==> exists|m: Seq<char>|
            #![trigger source.members.contains_key(m)]
            source.members.contains_key(m) && source.members[m].consumed_seq == least,
{
}

/// A join is taken exactly for a configured member with a healthy follower of
/// the same history that is not ahead of the source.
pub proof fn law_join_needs_a_fitting_follower(
    source: ReplicatedView,
    member: Seq<char>,
    follower: IngestView,
    published: u64,
)
    ensures
        join_error(source, member, follower, published) is None <==> {
            &&& follower.history == source.history
            &&& !follower.follower.poisoned
            &&& follower.follower.applied <= published
            &&& source.members.contains_key(member)
        },
        match join_error(source, member, follower, published) {
            None => true,
            Some(JoinError::History) => follower.history != source.history,
            Some(JoinError::Poisoned) => follower.follower.poisoned && follower.history
                == source.history,
            Some(JoinError::Ahead) => follower.follower.applied > published,
            Some(JoinError::Unknown) => !source.members.contains_key(member),
        },
{
}

/// Joining records the follower's own progress under a session that was not
/// issued before, and touches no other member.
pub proof fn law_join_records_progress(
    source: ReplicatedView,
    member: Seq<char>,
    applied: u64,
    other: Seq<char>,
)
    requires
        source.wf(),
        source.next_session < u64::MAX,
    ensures
        ({
            let after = source.joined(member, applied);
            &&& after.members.contains_key(member)
            &&& after.members[member].consumed_seq == applied
            &&& after.members[member].session == Some(source.next_session)
            &&& after.next_session == source.next_session + 1
            &&& after.history == source.history && after.owner == source.owner
            &&& other != member ==> (after.members.contains_key(other)
                <==> source.members.contains_key(other)) && after.members[other]
                == source.members[other]
            &&& after.wf()
        }),
{
}

/// A member that is added starts at zero without a session, one that is
/// removed is gone, and neither touches another.
pub proof fn law_membership_changes_one_member(
    source: ReplicatedView,
    member: Seq<char>,
    other: Seq<char>,
)
    ensures
        source.added(member).members.contains_key(member),
        source.added(member).members[member].consumed_seq == 0,
        source.added(member).members[member].session is None,
        !source.removed(member).members.contains_key(member),
        other != member ==> {
            &&& source.added(member).members.contains_key(other)
                <==> source.members.contains_key(other)
            &&& source.removed(member).members.contains_key(other)
                <==> source.members.contains_key(other)
            &&& source.members.contains_key(other) ==> source.added(member).members[other]
                == source.members[other] && source.removed(member).members[other]
                == source.members[other]
        },
        source.added(member).next_session == source.next_session,
        source.removed(member).next_session == source.next_session,
{
}

/// A request reports the position that it asks for, where that is further than
/// what was reported before, and keeps the session.
pub proof fn law_report_is_the_furthest_position(
    source: ReplicatedView,
    member: Seq<char>,
    from_seq: u64,
)
    requires
        source.members.contains_key(member),
    ensures
        ({
            let before = source.members[member];
            let after = source.reported(member, from_seq).members[member];
            &&& after.session == before.session
            &&& after.consumed_seq >= from_seq
            &&& after.consumed_seq >= before.consumed_seq
            &&& after.consumed_seq == from_seq || after.consumed_seq == before.consumed_seq
            &&& source.reported(member, from_seq).next_session == source.next_session
        }),
{
}

/// The first `n` names are configured, each at zero without a session, and no
/// other is.
pub proof fn law_configured_members_start_at_zero(names: Seq<String>, n: int, name: Seq<char>)
    requires
        0 <= n <= names.len(),
    ensures
        configured(names, n).contains_key(name) <==> exists|i: int|
            0 <= i < n && (#[trigger] names[i])@ == name,
        configured(names, n).contains_key(name) ==> configured(names, n)[name].consumed_seq == 0
            && configured(names, n)[name].session is None,
    decreases n,
{
    if n > 0 {
        law_configured_members_start_at_zero(names, n - 1, name);
        if exists|i: int| 0 <= i < n - 1 && (#[trigger] names[i])@ == name {
            let i = choose|i: int| 0 <= i < n - 1 && (#[trigger] names[i])@ == name;
            assert(names[i]@ == name);
        }
        if names[n - 1]@ == name {
            assert(names[n - 1]@ == name);
        }
    }
}

/// A configuration is refused exactly where a name occurs twice.
pub proof fn law_repeated_member_is_refused(names: Seq<String>, i: int)
    requires
        0 <= i <= names.len(),
    ensures
        match first_repeat(names, i) {
            Some(k) => i <= k < names.len() && exists|j: int|
                0 <= j < k && (#[trigger] names[j])@ == names[k]@,
            None => forall|j: int, k: int|
                #![trigger names[j], names[k]]
                0 <= j < k && i <= k < names.len() ==> names[j]@ != names[k]@,
        },
    decreases names.len() - i,
{
    if i < names.len() && !(exists|j: int| 0 <= j < i && (#[trigger] names[j])@ == names[i]@) {
        law_repeated_member_is_refused(names, i + 1);
    }
}

} // verus!
