//! Channel tests: membership, sequencing and the sender-order chain.

use regionstore::channel::{
    Channel, ChannelError, ChannelCommand, ChannelSequence, CommandAddress, MemberId, MessageId,
};
use regionstore::mem_io::MemRegionAddress;
use regionstore::CollectionId;

#[test]
fn test_new_channel() {
    let id = CollectionId(1);
    let member = MemberId { id: 1 };

    let channel = Channel::<MemRegionAddress>::new(id, member, 1024, 1024, 1024);
    assert!(channel.is_ok());

    let channel = channel.unwrap();
    assert_eq!(channel.id, id);
    assert_eq!(channel.next_sequence, ChannelSequence(0));
    assert_eq!(channel.members.len(), 1);
    assert_eq!(channel.members.get(0).unwrap().member, member);
    assert_eq!(
        channel.members.get(0).unwrap().last_sequence,
        ChannelSequence(0)
    );
}

#[test]
fn test_add_member() {
    let id = CollectionId(1);
    let initial_member = MemberId { id: 1 };
    let new_member = MemberId { id: 2 };

    let mut channel =
        Channel::<MemRegionAddress>::new(id, initial_member, 2, 1, 1).unwrap();

    let result = channel.add_member(new_member);
    assert!(result.is_ok());

    assert_eq!(channel.members.len(), 2);
    assert!(channel.members.iter().any(|m| m.member == initial_member));
    assert!(channel.members.iter().any(|m| m.member == new_member));
}

#[test]
fn test_add_member_limit() {
    let id = CollectionId(1);
    let initial_member = MemberId { id: 1 };

    let mut channel =
        Channel::<MemRegionAddress>::new(id, initial_member, 2, 1, 1).unwrap();

    // Add one member should succeed
    let result = channel.add_member(MemberId { id: 2 });
    assert!(result.is_ok());

    // Adding third member should fail with UserLimitReached
    let result = channel.add_member(MemberId { id: 3 });
    assert!(matches!(result, Err(ChannelError::UserLimitReached)));
}

#[test]
fn test_get_last_sequence() {
    let id = CollectionId(1);
    let initial_member = MemberId { id: 1 };

    let channel = Channel::<MemRegionAddress>::new(id, initial_member, 1, 1, 1).unwrap();

    // Initial sequence should be 0
    let seq = channel.get_last_sequence(&initial_member);
    assert!(seq.is_ok());
    assert_eq!(seq.unwrap(), ChannelSequence(0));

    // Non-existent member should return error
    let bad_member = MemberId { id: 999 };
    let seq = channel.get_last_sequence(&bad_member);
    assert!(matches!(seq, Err(ChannelError::MemberNotFound(_))));
}

#[test]
fn test_get_next_sequence() {
    let id = CollectionId(1);
    let initial_member = MemberId { id: 1 };

    let mut channel = Channel::<MemRegionAddress>::new(id, initial_member, 1, 1, 1).unwrap();

    // First call should return 0 and increment internal counter
    assert_eq!(channel.get_next_sequence(), ChannelSequence(0));
    assert_eq!(channel.next_sequence, ChannelSequence(1));

    // Second call should return 1 and increment internal counter
    assert_eq!(channel.get_next_sequence(), ChannelSequence(1));
    assert_eq!(channel.next_sequence, ChannelSequence(2));
}

#[test]
fn test_duplicate_member_add() {
    let id = CollectionId(1);
    let member = MemberId { id: 1 };

    let mut channel = Channel::<MemRegionAddress>::new(id, member, 1, 1, 1).unwrap();

    // Adding same member again should succeed but not create duplicate
    let result = channel.add_member(member);
    assert!(result.is_ok());
    assert_eq!(channel.members.len(), 1);
    assert_eq!(channel.members.get(0).unwrap().member, member);
}

#[test]
fn test_sender_order_chain() {
    // Commands emitted locally by one author carry strictly increasing
    // sequences and a sender-last chain: each command's sender_last is
    // the previous command's sequence.
    let id = CollectionId(1);
    let author = MemberId { id: 42 };

    let mut channel = Channel::<MemRegionAddress>::new(id, author, 4, 4, 8).unwrap();

    let mut chain = Vec::new();
    for k in 0..3u8 {
        let command = channel
            .add_command(
                CommandAddress::zero(),
                author,
                MessageId { id: k as u128 },
                vec![k],
            )
            .expect("add_command failed");
        let ChannelCommand::AddCommand(c) = command else {
            panic!("expected an AddCommand");
        };
        chain.push((c.sender_last, c.sequence));
    }

    assert_eq!(chain[0], (ChannelSequence(0), ChannelSequence(0)));
    assert_eq!(chain[1], (ChannelSequence(0), ChannelSequence(1)));
    assert_eq!(chain[2], (ChannelSequence(1), ChannelSequence(2)));
    assert!(chain[1].1 > chain[0].1 && chain[2].1 > chain[1].1);
    assert_eq!(chain[1].0, chain[0].1);
    assert_eq!(chain[2].0, chain[1].1);
    assert_eq!(channel.pending.len(), 3);
}

#[test]
fn test_add_command_unknown_author() {
    let id = CollectionId(1);
    let member = MemberId { id: 1 };
    let stranger = MemberId { id: 9 };

    let mut channel = Channel::<MemRegionAddress>::new(id, member, 2, 2, 2).unwrap();
    let result = channel.add_command(
        CommandAddress::zero(),
        stranger,
        MessageId { id: 1 },
        vec![1, 2, 3],
    );
    assert!(matches!(
        result,
        Err(ChannelError::MemberNotFound(m)) if m == stranger
    ));
}

#[test]
fn test_add_command_pending_limit() {
    let id = CollectionId(1);
    let author = MemberId { id: 1 };

    let mut channel = Channel::<MemRegionAddress>::new(id, author, 2, 2, 1).unwrap();
    channel
        .add_command(CommandAddress::zero(), author, MessageId { id: 1 }, vec![1])
        .expect("first command should fit");
    let result =
        channel.add_command(CommandAddress::zero(), author, MessageId { id: 2 }, vec![2]);
    assert!(matches!(result, Err(ChannelError::PendingLimitReached)));
}

#[test]
fn test_add_command_needs_checkpoint() {
    // With no room in the updates set, the first command of an author
    // cannot be recorded as touched since the last checkpoint.
    let id = CollectionId(1);
    let author = MemberId { id: 1 };

    let mut channel = Channel::<MemRegionAddress>::new(id, author, 2, 0, 4).unwrap();
    let result =
        channel.add_command(CommandAddress::zero(), author, MessageId { id: 1 }, vec![1]);
    assert!(matches!(result, Err(ChannelError::NeedsCheckpoint)));
}
