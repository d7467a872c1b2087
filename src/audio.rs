use std::path::PathBuf;
use vstd::prelude::*;
use vstd::slice::slice_to_vec;

verus! {

#[verifier::external_type_specification]
#[verifier::external_body]
pub struct ExPathBuf(PathBuf);

/// A sound to play: a file on disk, or encoded audio held in memory.
#[derive(Debug)]
pub enum OwnedInput {
    File(PathBuf),
    Bytes(Vec<u8>),
}

/// Sounds played one after the other: the first, then the queue in order.
#[derive(Debug)]
pub struct Playable(pub OwnedInput, pub Vec<OwnedInput>);

impl Playable {
    /// All sounds in playing order.
    pub open spec fn sounds(&self) -> Seq<OwnedInput> {
        seq![self.0] + self.1@
    }

    /// The sound stored at `path`.
    pub fn file(path: PathBuf) -> (r: Playable)
        ensures
            r.sounds() == seq![OwnedInput::File(path)],
    {
        let r = Playable(OwnedInput::File(path), Vec::new());
        assert(r.sounds() =~= seq![OwnedInput::File(path)]);
        r
    }

    /// The sound encoded in `bytes`.
    pub fn bytes(bytes: &[u8]) -> (r: Playable)
        ensures
            r.sounds().len() == 1,
            r.sounds()[0] matches OwnedInput::Bytes(b) && b@ == bytes@,
    {
        Playable(OwnedInput::Bytes(slice_to_vec(bytes)), Vec::new())
    }

    /// This sound followed by `rhs`.
    pub fn add(self, rhs: Playable) -> (r: Playable)
        ensures
            r.sounds() == self.sounds() + rhs.sounds(),
    {
        let Playable(first, mut queue) = self;
        let Playable(next, mut rest) = rhs;
        let ghost q0 = queue@;
        let ghost r0 = rest@;
        queue.push(next);
        queue.append(&mut rest);
        let r = Playable(first, queue);
        assert(r.sounds() =~= (seq![first] + q0) + (seq![next] + r0));
        r
    }
}

/// Appends `next` to the sounds gathered so far.
pub fn extend_audio(audio: &mut Option<Playable>, next: Playable)
    ensures
        *final(audio) matches Some(p) && p.sounds() == match *old(audio) {
            Some(a) => a.sounds() + next.sounds(),
            None => next.sounds(),
        },
{
    let joined = match audio.take() {
        Some(a) => a.add(next),
        None => next,
    };
    *audio = Some(joined);
}

/// Whether a sound was played or skipped because the player was busy.
#[derive(Clone, Copy, Debug, PartialEq, Eq, Structural)]
pub enum Busyness {
    Success,
    Busy,
}

/// The style of a button, as a command option.
#[derive(Clone, Copy, Debug, PartialEq, Eq, Structural)]
pub enum ButtonStyleParameter {
    Primary,
    Secondary,
    Success,
    Danger,
}

} // verus!
