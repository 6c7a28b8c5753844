//! The partially ordered channel: a command log of member additions
//! and payload-carrying commands.  Per sender, commands are totally
//! ordered by `(sender_last, sequence)`; across senders the `prior`
//! pointer induces a directed acyclic graph.  Persistence is delegated
//! to the write-ahead log; this module keeps the in-memory protocol
//! state.

use vstd::prelude::*;

use crate::mem_io::RegionAddress;
use crate::CollectionId;

verus! {

/// Errors of the channel.
#[derive(Debug, Clone, Copy, PartialEq, Eq, Structural)]
pub enum ChannelError {
    UserLimitReached,
    MemberNotFound(MemberId),
    PendingLimitReached,
    NeedsCheckpoint,
    InvalidSequence,
}

/// A per-channel sequence number.
#[derive(Debug, Clone, Copy, PartialEq, Eq, PartialOrd, Ord, Structural)]
pub struct ChannelSequence(pub u64);

/// A member of the channel.
#[derive(Debug, Clone, Copy, PartialEq, Eq, Structural)]
pub struct MemberId {
    pub id: u128,
}

/// A message carried by a command.
#[derive(Debug, Clone, Copy, PartialEq, Eq, Structural)]
pub struct MessageId {
    pub id: u128,
}

/// The address of a command: a region and an offset within it.
#[derive(Debug, Clone, Copy, PartialEq, Eq)]
pub struct CommandAddress<A: RegionAddress> {
    pub region: A,
    pub offset: usize,
}

impl<A: RegionAddress> CommandAddress<A> {
    /// The distinguished zero address.
    pub fn zero() -> (r: Self)
        ensures
            r.region == A::spec_zero(),
            r.offset == 0,
    {
        Self { region: A::zero(), offset: 0 }
    }
}

/// The largest sequence seen from a member.
#[derive(Debug, Clone, Copy, PartialEq, Eq, Structural)]
pub struct MemberSequence {
    pub member: MemberId,
    pub last_sequence: ChannelSequence,
}

/// A payload-carrying command: a partial-order record.
#[derive(Debug)]
pub struct AddCommand<A: RegionAddress> {
    /// A command with a sequence one less than this command's; it
    /// should equal the largest sequence the sender has seen.
    pub prior: CommandAddress<A>,
    /// The last sequence used by the sender, to detect missing
    /// commands.
    pub sender_last: ChannelSequence,
    /// This command's sequence number: one greater than any sequence
    /// the sender has seen or used.
    pub sequence: ChannelSequence,
    /// The author of the command.
    pub author: MemberId,
    /// The message of the command.
    pub message_id: MessageId,
    /// The payload of the command.
    pub payload: Vec<u8>,
}

impl<A: RegionAddress> AddCommand<A> {
    pub fn new(
        prior: CommandAddress<A>,
        sender_last: ChannelSequence,
        sequence: ChannelSequence,
        author: MemberId,
        message_id: MessageId,
        payload: Vec<u8>,
    ) -> (r: ChannelCommand<A>)
        ensures
            r matches ChannelCommand::AddCommand(c) && c.prior == prior && c.sender_last
                == sender_last && c.sequence == sequence && c.author == author && c.message_id
                == message_id && c.payload@ == payload@,
    {
        ChannelCommand::AddCommand(
            Self { prior, sender_last, sequence, author, message_id, payload },
        )
    }

    /// A field-for-field copy.
    pub fn duplicate(&self) -> (r: Self)
        ensures
            r.prior == self.prior,
            r.sender_last == self.sender_last,
            r.sequence == self.sequence,
            r.author == self.author,
            r.message_id == self.message_id,
            r.payload@ == self.payload@,
    {
        let mut payload: Vec<u8> = Vec::new();
        let mut i: usize = 0;
        while i < self.payload.len()
            invariant
                i <= self.payload@.len(),
                payload@.len() == i,
                forall|k: int| 0 <= k < i ==> payload@[k] == self.payload@[k],
            decreases self.payload@.len() - i,
        {
            payload.push(self.payload[i]);
            i += 1;
        }
        proof {
            assert(payload@ =~= self.payload@);
        }
        Self {
            prior: self.prior,
            sender_last: self.sender_last,
            sequence: self.sequence,
            author: self.author,
            message_id: self.message_id,
            payload,
        }
    }
}

/// A command adding a member to the channel.
#[derive(Debug)]
pub struct AddMemberCommand<A: RegionAddress> {
    pub member: MemberId,
    pub phantom: core::marker::PhantomData<A>,
}

impl<A: RegionAddress> AddMemberCommand<A> {
    pub fn new(member: MemberId) -> (r: ChannelCommand<A>)
        ensures
            r matches ChannelCommand::AddMemberCommand(c) && c.member == member,
    {
        ChannelCommand::AddMemberCommand(Self { member, phantom: core::marker::PhantomData })
    }
}

/// A checkpoint: compresses the member-to-last-sequence frontier.
#[derive(Debug)]
pub struct CheckPointCommand<A: RegionAddress> {
    /// The checkpoint this one builds on.
    pub previous_checkpoint: CommandAddress<A>,
    /// The total number of commands in the channel up to this
    /// checkpoint.
    pub command_count: u64,
    /// At least every member sequence that moved since the previous
    /// checkpoint.
    pub sequences: Vec<MemberSequence>,
}

impl<A: RegionAddress> CheckPointCommand<A> {
    pub fn new(
        previous_checkpoint: CommandAddress<A>,
        command_count: u64,
        sequences: &Vec<MemberSequence>,
    ) -> (r: ChannelCommand<A>)
        ensures
            r matches ChannelCommand::CheckPointCommand(c) && c.previous_checkpoint
                == previous_checkpoint && c.command_count == command_count && c.sequences@
                == sequences@,
    {
        let mut copy: Vec<MemberSequence> = Vec::new();
        let mut i: usize = 0;
        while i < sequences.len()
            invariant
                i <= sequences@.len(),
                copy@.len() == i,
                forall|k: int| 0 <= k < i ==> copy@[k] == sequences@[k],
            decreases sequences@.len() - i,
        {
            copy.push(sequences[i]);
            i += 1;
        }
        proof {
            assert(copy@ =~= sequences@);
        }
        ChannelCommand::CheckPointCommand(
            Self { previous_checkpoint, command_count, sequences: copy },
        )
    }
}

/// The commands of the channel protocol.
pub enum ChannelCommand<A: RegionAddress> {
    AddCommand(AddCommand<A>),
    AddMemberCommand(AddMemberCommand<A>),
    CheckPointCommand(CheckPointCommand<A>),
}

/// One applied payload command, as the ghost history records it:
/// author, sender-last and sequence.
pub struct AppliedCommand {
    pub author: u128,
    pub sender_last: u64,
    pub sequence: u64,
}

/// The sequence of the most recent applied command of `author`, or
/// zero if there is none.
pub open spec fn last_author_seq(log: Seq<AppliedCommand>, author: u128) -> u64
    decreases log.len(),
{
    if log.len() == 0 {
        0u64
    } else if log.last().author == author {
        log.last().sequence
    } else {
        last_author_seq(log.drop_last(), author)
    }
}

/// An author with no applied command has a zero last sequence.
proof fn lemma_last_author_seq_absent(log: Seq<AppliedCommand>, author: u128)
    requires
        forall|j: int| 0 <= j < log.len() ==> (#[trigger] log[j]).author != author,
    ensures
        last_author_seq(log, author) == 0,
    decreases log.len(),
{
    if log.len() > 0 {
        assert(log.last() == log[log.len() - 1]);
        lemma_last_author_seq_absent(log.drop_last(), author);
    }
}

/// Appending a command moves only its own author's last sequence.
proof fn lemma_last_author_seq_push(log: Seq<AppliedCommand>, e: AppliedCommand, author: u128)
    ensures
        e.author == author ==> last_author_seq(log.push(e), author) == e.sequence,
        e.author != author ==> last_author_seq(log.push(e), author) == last_author_seq(
            log,
            author,
        ),
{
    assert(log.push(e).last() == e);
    assert(log.push(e).drop_last() =~= log);
}

/// The channel's sender-order law over its applied history: every
/// command's `sender_last` names the last sequence previously used by
/// its author, and its own sequence strictly exceeds it.
pub open spec fn sender_order(log: Seq<AppliedCommand>) -> bool {
    forall|j: int|
        0 <= j < log.len() ==> (#[trigger] log[j]).sender_last == last_author_seq(
            log.take(j),
            log[j].author,
        ) && (log[j].sequence > log[j].sender_last || (log[j].sequence == 0 && log[j].sender_last
            == 0))
}

/// The channel state.
pub struct Channel<A: RegionAddress> {
    pub id: CollectionId,
    pub next_sequence: ChannelSequence,
    pub members: Vec<MemberSequence>,
    pub member_limit: usize,
    pub checkpoint: CommandAddress<A>,
    pub updates: Vec<MemberId>,
    pub update_limit: usize,
    pub pending: Vec<AddCommand<A>>,
    pub pending_limit: usize,
    /// Every applied payload command, in order.
    pub applied: Ghost<Seq<AppliedCommand>>,
}

impl<A: RegionAddress> Channel<A> {
    /// The recorded last sequence of `author`, if it is a member.
    pub open spec fn member_last(&self, author: u128) -> Option<u64> {
        if exists|k: int|
            0 <= k < self.members@.len() && (#[trigger] self.members@[k]).member.id == author {
            let k = choose|k: int|
                0 <= k < self.members@.len() && (#[trigger] self.members@[k]).member.id == author;
            Some(self.members@[k].last_sequence.0)
        } else {
            None
        }
    }

    /// Well-formedness: members are distinct and within the limit, so
    /// are the update and pending stores; every member's recorded last
    /// sequence is the last its author used in the applied history;
    /// every applied author is a member; and the history obeys the
    /// sender-order law.
    pub open spec fn wf(&self) -> bool {
        &&& self.members@.len() <= self.member_limit
        &&& self.updates@.len() <= self.update_limit
        &&& self.pending@.len() <= self.pending_limit
        &&& forall|a: int, b: int|
            0 <= a < b < self.members@.len() ==> (#[trigger] self.members@[a]).member.id != (
            #[trigger] self.members@[b]).member.id
        &&& forall|k: int|
            0 <= k < self.members@.len() ==> (#[trigger] self.members@[k]).last_sequence.0
                == last_author_seq(self.applied@, self.members@[k].member.id)
        &&& forall|j: int|
            0 <= j < self.applied@.len() ==> exists|k: int|
                0 <= k < self.members@.len() && (#[trigger] self.members@[k]).member.id == (
                #[trigger] self.applied@[j]).author
        &&& sender_order(self.applied@)
    }

    /// Creates a channel with one initial member whose last sequence
    /// is zero.
    pub fn new(
        id: CollectionId,
        initial_member: MemberId,
        member_limit: usize,
        update_limit: usize,
        pending_limit: usize,
    ) -> (r: Result<Self, ChannelError>)
        ensures
            member_limit == 0 ==> r == Err::<Channel<A>, ChannelError>(
                ChannelError::UserLimitReached,
            ),
            member_limit >= 1 ==> (r matches Ok(c) && {
                &&& c.wf()
                &&& c.id == id
                &&& c.next_sequence == ChannelSequence(0u64)
                &&& c.members@.len() == 1
                &&& c.members@[0] == (MemberSequence {
                    member: initial_member,
                    last_sequence: ChannelSequence(0u64),
                })
                &&& c.member_limit == member_limit
                &&& c.update_limit == update_limit
                &&& c.pending_limit == pending_limit
                &&& c.checkpoint.region == A::spec_zero()
                &&& c.checkpoint.offset == 0
                &&& c.updates@.len() == 0
                &&& c.pending@.len() == 0
                &&& c.applied@.len() == 0
            }),
    {
        if member_limit == 0 {
            return Err(ChannelError::UserLimitReached);
        }
        let mut members: Vec<MemberSequence> = Vec::new();
        members.push(MemberSequence { member: initial_member, last_sequence: ChannelSequence(0) });
        let c = Channel {
            id,
            next_sequence: ChannelSequence(0),
            members,
            member_limit,
            checkpoint: CommandAddress::zero(),
            updates: Vec::new(),
            update_limit,
            pending: Vec::new(),
            pending_limit,
            applied: Ghost(Seq::empty()),
        };
        proof {
            lemma_last_author_seq_absent(c.applied@, initial_member.id);
            assert(c.wf());
        }
        Ok(c)
    }

    /// The index of a member, if present.
    fn find_member(&self, member: &MemberId) -> (r: Option<usize>)
        ensures
            match r {
                Some(k) => k < self.members@.len() && self.members@[k as int].member.id
                    == member.id,
                None => forall|k: int|
                    0 <= k < self.members@.len() ==> (#[trigger] self.members@[k]).member.id
                        != member.id,
            },
    {
        let mut k: usize = 0;
        while k < self.members.len()
            invariant
                k <= self.members@.len(),
                forall|t: int| 0 <= t < k ==> (#[trigger] self.members@[t]).member.id != member.id,
            decreases self.members@.len() - k,
        {
            if self.members[k].member.id == member.id {
                return Some(k);
            }
            k += 1;
        }
        None
    }

    /// The last sequence recorded for a member.
    pub fn get_last_sequence(&self, member: &MemberId) -> (r: Result<ChannelSequence, ChannelError>)
        requires
            self.wf(),
        ensures
            self.member_last(member.id) matches Some(v) ==> r == Ok::<
                ChannelSequence,
                ChannelError,
            >(ChannelSequence(v)),
            self.member_last(member.id) is None ==> r == Err::<ChannelSequence, ChannelError>(
                ChannelError::MemberNotFound(*member),
            ),
    {
        match self.find_member(member) {
            Some(k) => {
                let seq = self.members[k].last_sequence;
                proof {
                    lemma_member_last_at(self, member.id, k as int);
                }
                Ok(seq)
            },
            None => {
                proof {
                    if exists|t: int|
                        0 <= t < self.members@.len() && (#[trigger] self.members@[t]).member.id
                            == member.id {
                        let t = choose|t: int|
                            0 <= t < self.members@.len() && (
                            #[trigger] self.members@[t]).member.id == member.id;
                        assert(false);
                    }
                }
                Err(ChannelError::MemberNotFound(*member))
            },
        }
    }

    /// Hands out the next channel sequence and advances the counter.
    pub fn get_next_sequence(&mut self) -> (r: ChannelSequence)
        requires
            old(self).next_sequence.0 < u64::MAX,
        ensures
            r == old(self).next_sequence,
            *final(self) == (Channel {
                next_sequence: ChannelSequence((old(self).next_sequence.0 + 1) as u64),
                ..*old(self)
            }),
    {
        let sequence = self.next_sequence;
        self.next_sequence = ChannelSequence(sequence.0 + 1);
        sequence
    }

    /// Adds a member: idempotent on state, but the command is emitted
    /// either way so peers converge.
    pub fn add_member(&mut self, member: MemberId) -> (r: Result<ChannelCommand<A>, ChannelError>)
        requires
            old(self).wf(),
        ensures
            final(self).wf(),
            final(self).applied == old(self).applied,
            final(self).pending@.len() == old(self).pending@.len(),
            final(self).id == old(self).id,
            final(self).next_sequence == old(self).next_sequence,
            final(self).member_limit == old(self).member_limit,
            final(self).update_limit == old(self).update_limit,
            final(self).pending_limit == old(self).pending_limit,
            final(self).pending == old(self).pending,
            final(self).updates == old(self).updates,
            final(self).checkpoint == old(self).checkpoint,
            (old(self).member_last(member.id) is Some) ==> (r matches Ok(c) && c matches
                ChannelCommand::AddMemberCommand(mc) && mc.member == member && final(self).members
                == old(self).members),
            (old(self).member_last(member.id) is None) && old(self).members@.len() == old(self).member_limit ==> r == Err::<ChannelCommand<A>, ChannelError>(
                ChannelError::UserLimitReached,
            ) && final(self).members == old(self).members,
            (old(self).member_last(member.id) is None) && old(self).members@.len() < old(self).member_limit ==> (r matches Ok(c) && c matches ChannelCommand::AddMemberCommand(mc)
                && mc.member == member && final(self).members@ == old(self).members@.push(
                MemberSequence { member, last_sequence: ChannelSequence(0u64) },
            )),
    {
        let command = AddMemberCommand::new(member);
        match self.apply_command(&command) {
            Ok(()) => Ok(command),
            Err(e) => Err(e),
        }
    }

    /// Emits a payload command: looks the author's last sequence up,
    /// assigns the next channel sequence, applies the command and
    /// returns it.
    pub fn add_command(
        &mut self,
        prior: CommandAddress<A>,
        author: MemberId,
        message_id: MessageId,
        payload: Vec<u8>,
    ) -> (r: Result<ChannelCommand<A>, ChannelError>)
        requires
            old(self).wf(),
            old(self).next_sequence.0 < u64::MAX,
        ensures
            final(self).wf(),
            final(self).members@.len() == old(self).members@.len(),
            final(self).id == old(self).id,
            final(self).member_limit == old(self).member_limit,
            final(self).update_limit == old(self).update_limit,
            final(self).pending_limit == old(self).pending_limit,
            final(self).checkpoint == old(self).checkpoint,
            (old(self).member_last(author.id) is None) ==> r == Err::<
                ChannelCommand<A>,
                ChannelError,
            >(ChannelError::MemberNotFound(author)) && *final(self) == *old(self),
            r matches Ok(c) ==> {
                &&& c matches ChannelCommand::AddCommand(ac) && ac.prior == prior && ac.author
                    == author && ac.message_id == message_id && ac.payload@ == payload@
                    && ac.sender_last.0 == last_author_seq(old(self).applied@, author.id)
                    && ac.sequence == old(self).next_sequence
                &&& final(self).applied@ == old(self).applied@.push(
                    AppliedCommand {
                        author: author.id,
                        sender_last: last_author_seq(old(self).applied@, author.id),
                        sequence: old(self).next_sequence.0,
                    },
                )
                &&& final(self).next_sequence.0 == old(self).next_sequence.0 + 1
                &&& final(self).member_last(author.id) == Some(old(self).next_sequence.0)
                &&& exists|t: int|
                    0 <= t < final(self).updates@.len() && (#[trigger] final(self).updates@[t]).id
                        == author.id
                &&& final(self).pending@.len() == old(self).pending@.len() + 1
                &&& forall|k: int|
                    0 <= k < old(self).pending@.len() ==> final(self).pending@[k] == old(self).pending@[k]
                &&& final(self).pending@.last().prior == prior
                &&& final(self).pending@.last().sender_last.0 == last_author_seq(
                    old(self).applied@,
                    author.id,
                )
                &&& final(self).pending@.last().sequence == old(self).next_sequence
                &&& final(self).pending@.last().author == author
                &&& final(self).pending@.last().message_id == message_id
                &&& final(self).pending@.last().payload@ == payload@
                &&& sender_order(final(self).applied@)
            },
            (old(self).member_last(author.id) is Some) && r is Err ==> *final(self) == (Channel {
                next_sequence: ChannelSequence((old(self).next_sequence.0 + 1) as u64),
                ..*old(self)
            }),
            (old(self).member_last(author.id) matches Some(last) && (old(self).next_sequence.0
                > last || (old(self).next_sequence.0 == 0 && last == 0)) && old(self).pending@.len() < old(self).pending_limit && (old(self).updates@.len() < old(self).update_limit || exists|t: int|
                0 <= t < old(self).updates@.len() && (#[trigger] old(self).updates@[t]).id
                    == author.id)) ==> r is Ok,
    {
        let sender_last = match self.get_last_sequence(&author) {
            Ok(s) => s,
            Err(e) => {
                return Err(e);
            },
        };
        let sequence = self.get_next_sequence();
        let command = AddCommand::new(prior, sender_last, sequence, author, message_id, payload);
        match self.apply_command(&command) {
            Ok(()) => Ok(command),
            Err(e) => Err(e),
        }
    }

    /// Applies a command, locally generated or received from a peer.
    /// Checkpoint application is out of scope.
    #[verifier::rlimit(60)]
    pub(crate) fn apply_command(&mut self, command: &ChannelCommand<A>) -> (r: Result<
        (),
        ChannelError,
    >)
        requires
            old(self).wf(),
            !(command is CheckPointCommand),
        ensures
            final(self).wf(),
            final(self).id == old(self).id,
            final(self).next_sequence == old(self).next_sequence,
            final(self).member_limit == old(self).member_limit,
            final(self).update_limit == old(self).update_limit,
            final(self).pending_limit == old(self).pending_limit,
            final(self).checkpoint == old(self).checkpoint,
            command matches ChannelCommand::AddMemberCommand(mc) ==> {
                &&& final(self).applied == old(self).applied
                &&& final(self).pending == old(self).pending
                &&& final(self).updates == old(self).updates
                &&& final(self).pending@.len() == old(self).pending@.len()
                &&& ((old(self).member_last(mc.member.id) is Some) ==> r == Ok::<(), ChannelError>(
                    (),
                ) && final(self).members == old(self).members)
                &&& ((old(self).member_last(mc.member.id) is None) && old(self).members@.len()
                    == old(self).member_limit ==> r == Err::<(), ChannelError>(
                    ChannelError::UserLimitReached,
                ) && final(self).members == old(self).members)
                &&& ((old(self).member_last(mc.member.id) is None) && old(self).members@.len()
                    < old(self).member_limit ==> r == Ok::<(), ChannelError>(()) && final(self).members@ == old(self).members@.push(
                    MemberSequence { member: mc.member, last_sequence: ChannelSequence(0u64) },
                ))
            },
            command matches ChannelCommand::AddCommand(ac) ==> {
                &&& final(self).members@.len() == old(self).members@.len()
                &&& ((old(self).member_last(ac.author.id) is None) ==> r == Err::<
                    (),
                    ChannelError,
                >(ChannelError::MemberNotFound(ac.author)) && *final(self) == *old(self))
                &&& (old(self).member_last(ac.author.id) matches Some(last) ==> {
                    &&& (ac.sender_last.0 != last || (ac.sequence.0 <= last && !(ac.sequence.0
                        == 0 && last == 0)) ==> r == Err::<(), ChannelError>(
                        ChannelError::InvalidSequence,
                    ) && *final(self) == *old(self))
                    &&& (ac.sender_last.0 == last && (ac.sequence.0 > last || (ac.sequence.0 == 0
                        && last == 0)) && old(self).pending@.len() == old(self).pending_limit
                        ==> r == Err::<(), ChannelError>(ChannelError::PendingLimitReached)
                        && *final(self) == *old(self))
                    &&& (ac.sender_last.0 == last && (ac.sequence.0 > last || (ac.sequence.0 == 0
                        && last == 0)) && old(self).pending@.len() < old(self).pending_limit && old(self).updates@.len() == old(self).update_limit && !(exists|t: int|
                        0 <= t < old(self).updates@.len() && (#[trigger] old(self).updates@[t]).id
                            == ac.author.id) ==> r == Err::<(), ChannelError>(
                        ChannelError::NeedsCheckpoint,
                    ) && *final(self) == *old(self))
                    &&& (ac.sender_last.0 == last && (ac.sequence.0 > last || (ac.sequence.0 == 0
                        && last == 0)) && old(self).pending@.len() < old(self).pending_limit && (old(self).updates@.len() < old(self).update_limit || exists|t: int|
                        0 <= t < old(self).updates@.len() && (#[trigger] old(self).updates@[t]).id
                            == ac.author.id) ==> r == Ok::<(), ChannelError>(()) && final(self).applied@ == old(self).applied@.push(
                        AppliedCommand {
                            author: ac.author.id,
                            sender_last: ac.sender_last.0,
                            sequence: ac.sequence.0,
                        },
                    ) && final(self).member_last(ac.author.id) == Some(ac.sequence.0) && (exists|
                        t: int,
                    |
                        0 <= t < final(self).updates@.len() && (#[trigger] final(self).updates@[t]).id == ac.author.id) && final(self).pending@.len() == old(self).pending@.len() + 1 && (forall|
                        k: int,
                    |
                        0 <= k < old(self).pending@.len() ==> final(self).pending@[k] == old(self).pending@[k]) && final(self).pending@.last().prior == ac.prior && final(self).pending@.last().sender_last == ac.sender_last && final(self).pending@.last().sequence
                        == ac.sequence && final(self).pending@.last().author == ac.author && final(self).pending@.last().message_id == ac.message_id && final(self).pending@.last().payload@ == ac.payload@)
                })
            },
    {
        match command {
            ChannelCommand::AddMemberCommand(command) => {
                match self.find_member(&command.member) {
                    Some(_) => {
                        proof {
                            let t = choose|t: int|
                                0 <= t < self.members@.len() && (
                                #[trigger] self.members@[t]).member.id == command.member.id;
                        }
                        Ok(())
                    },
                    None => {
                        proof {
                            if exists|t: int|
                                0 <= t < self.members@.len() && (
                                #[trigger] self.members@[t]).member.id == command.member.id {
                                let t = choose|t: int|
                                    0 <= t < self.members@.len() && (
                                    #[trigger] self.members@[t]).member.id == command.member.id;
                                assert(false);
                            }
                        }
                        if self.members.len() >= self.member_limit {
                            return Err(ChannelError::UserLimitReached);
                        }
                        let member_sequence = MemberSequence {
                            member: command.member,
                            last_sequence: ChannelSequence(0),
                        };
                        let ghost members0 = self.members@;
                        self.members.push(member_sequence);
                        proof {
                            lemma_last_author_seq_absent(self.applied@, command.member.id);
                            assert forall|j: int|
                                0 <= j < self.applied@.len() implies exists|k: int|
                                0 <= k < self.members@.len() && (
                                #[trigger] self.members@[k]).member.id == (
                                #[trigger] self.applied@[j]).author by {
                                let k = choose|k: int|
                                    0 <= k < members0.len() && (#[trigger] members0[k]).member.id
                                        == self.applied@[j].author;
                                assert(self.members@[k].member.id == self.applied@[j].author);
                            }
                            assert(self.wf());
                        }
                        Ok(())
                    },
                }
            },
            ChannelCommand::AddCommand(command) => {
                let index = match self.find_member(&command.author) {
                    Some(k) => k,
                    None => {
                        proof {
                            if exists|t: int|
                                0 <= t < self.members@.len() && (
                                #[trigger] self.members@[t]).member.id == command.author.id {
                                let t = choose|t: int|
                                    0 <= t < self.members@.len() && (
                                    #[trigger] self.members@[t]).member.id == command.author.id;
                                assert(false);
                            }
                        }
                        return Err(ChannelError::MemberNotFound(command.author));
                    },
                };
                proof {
                    lemma_member_last_at(self, command.author.id, index as int);
                }
                let recorded = self.members[index].last_sequence;
                // Validate sequencing: the sender's chain must match
                // the recorded last, and the sequence must move
                // forward.
                let fresh_start = command.sequence.0 == 0 && recorded.0 == 0;
                if command.sender_last.0 != recorded.0 || (command.sequence.0 <= recorded.0
                    && !fresh_start) {
                    return Err(ChannelError::InvalidSequence);
                }
                if self.pending.len() >= self.pending_limit {
                    return Err(ChannelError::PendingLimitReached);
                }
                let update_slot = self.find_update(&command.author);
                let in_updates = match update_slot {
                    Some(_) => true,
                    None => false,
                };
                if !in_updates && self.updates.len() >= self.update_limit {
                    return Err(ChannelError::NeedsCheckpoint);
                }
                let ghost members_mid = *self;
                self.use_sequence(index, command.sequence, in_updates, &command.author);
                let pending_command = command.duplicate();
                self.pending.push(pending_command);
                proof {
                    assert forall|a: int, b: int|
                        0 <= a < b < self.members@.len() implies (
                    #[trigger] self.members@[a]).member.id != (
                    #[trigger] self.members@[b]).member.id by {
                        assert(self.members@[a].member.id == members_mid.members@[a].member.id);
                        assert(self.members@[b].member.id == members_mid.members@[b].member.id);
                    }
                    lemma_member_last_at(self, command.author.id, index as int);
                    assert(self.members@[index as int].last_sequence == command.sequence);
                    match update_slot {
                        Some(k) => {
                            assert(self.updates@[k as int].id == command.author.id);
                        },
                        None => {
                            assert(self.updates@[self.updates@.len() - 1].id
                                == command.author.id);
                        },
                    }
                }
                let ghost e = AppliedCommand {
                    author: command.author.id,
                    sender_last: command.sender_last.0,
                    sequence: command.sequence.0,
                };
                let ghost applied0 = self.applied@;
                proof {
                    self.applied@ = applied0.push(e);
                }
                proof {
                    let log = self.applied@;
                    assert(log.take(log.len() - 1) =~= applied0);
                    assert forall|j: int| 0 <= j < log.len() implies (
                    #[trigger] log[j]).sender_last == last_author_seq(log.take(j), log[j].author)
                        && (log[j].sequence > log[j].sender_last || (log[j].sequence == 0
                        && log[j].sender_last == 0)) by {
                        if j < log.len() - 1 {
                            assert(applied0[j].sender_last == last_author_seq(
                                applied0.take(j),
                                applied0[j].author,
                            ));
                            assert(log.take(j) =~= applied0.take(j));
                        } else {
                            assert(log[j] == e);
                        }
                    }
                    assert forall|k: int|
                        0 <= k < self.members@.len() implies (
                    #[trigger] self.members@[k]).last_sequence.0 == last_author_seq(
                        self.applied@,
                        self.members@[k].member.id,
                    ) by {
                        lemma_last_author_seq_push(applied0, e, self.members@[k].member.id);
                        if k != index {
                            assert(self.members@[k].member.id != command.author.id);
                        }
                    }
                    assert forall|j: int|
                        0 <= j < self.applied@.len() implies exists|k: int|
                        0 <= k < self.members@.len() && (#[trigger] self.members@[k]).member.id == (
                        #[trigger] self.applied@[j]).author by {
                        if j < applied0.len() {
                            let k = choose|k: int|
                                0 <= k < old(self).members@.len() && (
                                #[trigger] old(self).members@[k]).member.id == applied0[j].author;
                            assert(self.members@[k].member.id == self.applied@[j].author);
                        } else {
                            assert(self.members@[index as int].member.id
                                == self.applied@[j].author);
                        }
                    }
                    assert(self.wf());
                }
                Ok(())
            },
            ChannelCommand::CheckPointCommand(_) => {
                proof {
                    assert(false);
                }
                Err(ChannelError::NeedsCheckpoint)
            },
        }
    }

    /// The index of a member in the updates set, if present.
    fn find_update(&self, member: &MemberId) -> (r: Option<usize>)
        ensures
            match r {
                Some(k) => k < self.updates@.len() && self.updates@[k as int].id == member.id,
                None => forall|k: int|
                    0 <= k < self.updates@.len() ==> (#[trigger] self.updates@[k]).id != member.id,
            },
    {
        let mut k: usize = 0;
        while k < self.updates.len()
            invariant
                k <= self.updates@.len(),
                forall|t: int| 0 <= t < k ==> (#[trigger] self.updates@[t]).id != member.id,
            decreases self.updates@.len() - k,
        {
            if self.updates[k].id == member.id {
                return Some(k);
            }
            k += 1;
        }
        None
    }

    /// Records that `member` used `sequence`: updates its recorded
    /// last sequence and marks it touched since the last checkpoint.
    fn use_sequence(
        &mut self,
        index: usize,
        sequence: ChannelSequence,
        in_updates: bool,
        member: &MemberId,
    )
        requires
            index < old(self).members@.len(),
            old(self).members@[index as int].member.id == member.id,
            in_updates ==> exists|t: int|
                0 <= t < old(self).updates@.len() && (#[trigger] old(self).updates@[t]).id
                    == member.id,
            !in_updates ==> old(self).updates@.len() < usize::MAX,
        ensures
            final(self).members@ == old(self).members@.update(
                index as int,
                MemberSequence { member: old(self).members@[index as int].member, last_sequence: sequence },
            ),
            in_updates ==> final(self).updates == old(self).updates,
            !in_updates ==> final(self).updates@ == old(self).updates@.push(*member),
            final(self).pending == old(self).pending,
            final(self).applied == old(self).applied,
            final(self).id == old(self).id,
            final(self).next_sequence == old(self).next_sequence,
            final(self).member_limit == old(self).member_limit,
            final(self).update_limit == old(self).update_limit,
            final(self).pending_limit == old(self).pending_limit,
            final(self).checkpoint == old(self).checkpoint,
    {
        let member_kept = self.members[index].member;
        let mut entry = self.members.remove(index);
        entry.last_sequence = sequence;
        self.members.insert(index, entry);
        proof {
            assert(self.members@ =~= old(self).members@.update(
                index as int,
                MemberSequence { member: member_kept, last_sequence: sequence },
            ));
        }
        if !in_updates {
            self.updates.push(*member);
        }
    }
}

/// Sender-order law: in any well-formed channel the applied history
/// obeys the chain — each command's `sender_last` is the last sequence
/// its author used before it, and its sequence moves strictly forward
/// (but for the zero-sequence start).
pub proof fn lemma_channel_sender_order<A: RegionAddress>(c: &Channel<A>)
    requires
        c.wf(),
    ensures
        sender_order(c.applied@),
{
}

/// A member found at index `k` pins the `member_last` lookup.
proof fn lemma_member_last_at<A: RegionAddress>(c: &Channel<A>, author: u128, k: int)
    requires
        0 <= k < c.members@.len(),
        c.members@[k].member.id == author,
        forall|a: int, b: int|
            0 <= a < b < c.members@.len() ==> (#[trigger] c.members@[a]).member.id != (
            #[trigger] c.members@[b]).member.id,
    ensures
        c.member_last(author) == Some(c.members@[k].last_sequence.0),
{
    let t = choose|t: int|
        0 <= t < c.members@.len() && (#[trigger] c.members@[t]).member.id == author;
    if t != k {
        if t < k {
            assert(c.members@[t].member.id != c.members@[k].member.id);
        } else {
            assert(c.members@[k].member.id != c.members@[t].member.id);
        }
    }
}

} // verus!
