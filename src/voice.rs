use vstd::prelude::*;

verus! {

/// How a member's voice channel changed.
#[derive(Clone, Copy, Debug, PartialEq, Eq, Structural)]
pub enum VoiceChange {
    Join { to: u64 },
    Leave { from: u64 },
    Move { from: u64, to: u64 },
    Stay,
}

impl VoiceChange {
    /// The change from the channel before (if any) to the channel after (if any).
    pub fn new(old: Option<u64>, new: Option<u64>) -> (r: VoiceChange)
        ensures
            r == match (old, new) {
                (None, Some(to)) => VoiceChange::Join { to },
                (Some(from), None) => VoiceChange::Leave { from },
                (Some(from), Some(to)) => if from != to {
                    VoiceChange::Move { from, to }
                } else {
                    VoiceChange::Stay
                },
                (None, None) => VoiceChange::Stay,
            },
    {
        match (old, new) {
            (None, Some(to)) => VoiceChange::Join { to },
            (Some(from), None) => VoiceChange::Leave { from },
            (Some(from), Some(to)) => if from != to {
                VoiceChange::Move { from, to }
            } else {
                VoiceChange::Stay
            },
            (None, None) => VoiceChange::Stay,
        }
    }
}

/// What happens to a member's pending region change when their voice channel changes.
#[derive(Clone, Copy, Debug, PartialEq, Eq, Structural)]
pub enum RegionTask {
    /// Cancel the pending change.
    Cancel,
    /// Cancel any pending change and schedule one for this channel.
    Restart { channel: u64 },
    /// Leave things as they are.
    Keep,
}

/// Leaving cancels the pending change; joining or moving restarts it for the new channel
/// when the member takes part in region changes.
pub fn region_task(change: VoiceChange, participates: bool) -> (r: RegionTask)
    ensures
        r == match change {
            VoiceChange::Leave { .. } => RegionTask::Cancel,
            VoiceChange::Join { to } => if participates {
                RegionTask::Restart { channel: to }
            } else {
                RegionTask::Keep
            },
            VoiceChange::Move { to, .. } => if participates {
                RegionTask::Restart { channel: to }
            } else {
                RegionTask::Keep
            },
            VoiceChange::Stay => RegionTask::Keep,
        },
{
    match change {
        VoiceChange::Leave { .. } => RegionTask::Cancel,
        VoiceChange::Join { to } => if participates {
            RegionTask::Restart { channel: to }
        } else {
            RegionTask::Keep
        },
        VoiceChange::Move { to, .. } => if participates {
            RegionTask::Restart { channel: to }
        } else {
            RegionTask::Keep
        },
        VoiceChange::Stay => RegionTask::Keep,
    }
}

/// The ids of the empty channels among `s`, in order.
pub open spec fn empty_ids(s: Seq<(u64, bool)>) -> Seq<u64>
    decreases s.len(),
{
    if s.len() == 0 {
        Seq::empty()
    } else if s.last().1 {
        empty_ids(s.drop_last()).push(s.last().0)
    } else {
        empty_ids(s.drop_last())
    }
}

/// Keeps exactly one empty voice channel at the end of a category. `channels` are the
/// category's voice channels in position order, each with whether it is empty. Returns
/// the channels to delete (every empty one but the last channel) and whether to open a
/// new channel (the last one is in use).
pub fn empty_channel_plan(channels: &Vec<(u64, bool)>) -> (r: (Vec<u64>, bool))
    ensures
        channels@.len() == 0 ==> r.0@ == Seq::<u64>::empty() && !r.1,
        channels@.len() > 0 ==> r.0@ == empty_ids(channels@.drop_last()) && r.1
            == !channels@.last().1,
{
    let ghost s = channels@;
    let mut delete: Vec<u64> = Vec::new();
    let n = channels.len();
    if n == 0 {
        return (delete, false);
    }
    let mut i: usize = 0;
    while i < n - 1
        invariant
            0 <= i <= n - 1,
            n == s.len(),
            channels@ == s,
            delete@ == empty_ids(s.subrange(0, i as int)),
        decreases n - 1 - i,
    {
        assert(s.subrange(0, i + 1).drop_last() =~= s.subrange(0, i as int));
        if channels[i].1 {
            delete.push(channels[i].0);
        }
        i += 1;
    }
    assert(s.subrange(0, n - 1) =~= s.drop_last());
    (delete, !channels[n - 1].1)
}

} // verus!
