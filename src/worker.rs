//! The decisions of the playback worker. The worker receives one command at a
//! time; for each it stops whatever plays, then loads the command's track from
//! the start if the command names one, and otherwise rejects it and stays
//! ready for the next command.
use crate::track_uri::{parse_track_uri, track_id_from_spotify_uri, MalformedTrackId, TrackId};
use vstd::prelude::*;
use vstd::string::StringSliceAdditionalSpecFns;

verus! {

/// Why a command loads nothing.
#[derive(Clone, Copy, Debug, PartialEq, Eq, Structural)]
pub enum Rejection {
    /// The command is not a track URI.
    NotATrack,
    /// The command is shaped as a track URI, but its identifier is corrupt.
    MalformedId,
}

/// What the worker does with one command. Both variants stop the current
/// playback first.
#[derive(Clone, Copy, Debug, PartialEq, Eq, Structural)]
pub enum WorkerAction {
    /// Stop, then load this track and play it from position 0.
    StopThenLoad(TrackId),
    /// Stop, and load nothing.
    StopOnly(Rejection),
}

/// What the player holds between commands.
#[derive(Clone, Copy, Debug, PartialEq, Eq, Structural)]
pub enum Playback {
    Idle,
    Playing(TrackId),
}

/// The worker's playback state. It is owned by the worker thread alone.
pub struct PlaybackWorker {
    pub playback: Playback,
}

/// The action for the command with UTF-8 bytes `cmd`.
pub open spec fn action_for(cmd: Seq<u8>) -> WorkerAction {
    match parse_track_uri(cmd) {
        Ok(Some(t)) => WorkerAction::StopThenLoad(t),
        Ok(None) => WorkerAction::StopOnly(Rejection::NotATrack),
        Err(_) => WorkerAction::StopOnly(Rejection::MalformedId),
    }
}

/// What the player holds once an action is done.
pub open spec fn playback_after(a: WorkerAction) -> Playback {
    match a {
        WorkerAction::StopThenLoad(t) => Playback::Playing(t),
        WorkerAction::StopOnly(_) => Playback::Idle,
    }
}

/// The playback state and the actions after the commands `cmds` are handled
/// in order, starting from `p`.
pub open spec fn run_commands(p: Playback, cmds: Seq<Seq<u8>>) -> (Playback, Seq<WorkerAction>)
    decreases cmds.len(),
{
    if cmds.len() == 0 {
        (p, Seq::empty())
    } else {
        let (_, acts) = run_commands(p, cmds.drop_last());
        let a = action_for(cmds.last());
        (playback_after(a), acts.push(a))
    }
}

/// The tracks that the actions `acts` load, in order.
pub open spec fn loaded_tracks(acts: Seq<WorkerAction>) -> Seq<TrackId>
    decreases acts.len(),
{
    if acts.len() == 0 {
        Seq::empty()
    } else {
        let init = loaded_tracks(acts.drop_last());
        match acts.last() {
            WorkerAction::StopThenLoad(t) => init.push(t),
            WorkerAction::StopOnly(_) => init,
        }
    }
}

/// The track that a track command names.
pub open spec fn track_of(cmd: Seq<u8>) -> TrackId {
    parse_track_uri(cmd)->Ok_0->Some_0
}

/// Commands are handled one by one, in the order they were delivered: each
/// command gets exactly one action, which stops playback; when every command
/// names a track, each is loaded, in that order, none is lost and none is
/// loaded twice; the worker ends in the state of the last command.
pub proof fn lemma_commands_handled_in_order(p: Playback, cmds: Seq<Seq<u8>>)
    ensures
        run_commands(p, cmds).1.len() == cmds.len(),
        forall|i: int|
            0 <= i < cmds.len() ==> #[trigger] run_commands(p, cmds).1[i] == action_for(cmds[i]),
        cmds.len() > 0 ==> run_commands(p, cmds).0 == playback_after(action_for(cmds.last())),
        (forall|i: int| 0 <= i < cmds.len() ==> #[trigger] parse_track_uri(cmds[i]) is Ok
            && parse_track_uri(cmds[i])->Ok_0 is Some) ==> loaded_tracks(run_commands(p, cmds).1)
            == cmds.map_values(|c: Seq<u8>| track_of(c)),
    decreases cmds.len(),
{
    if cmds.len() > 0 {
        let init = cmds.drop_last();
        lemma_commands_handled_in_order(p, init);
        let acts = run_commands(p, cmds).1;
        let prev = run_commands(p, init).1;
        assert(acts == prev.push(action_for(cmds.last())));
        assert(acts.drop_last() =~= prev);
        assert forall|i: int| 0 <= i < cmds.len() implies #[trigger] acts[i] == action_for(
            cmds[i],
        ) by {
            if i < init.len() {
                assert(init[i] == cmds[i]);
                assert(acts[i] == prev[i]);
            }
        }
        if forall|i: int| 0 <= i < cmds.len() ==> #[trigger] parse_track_uri(cmds[i]) is Ok
            && parse_track_uri(cmds[i])->Ok_0 is Some {
            assert forall|i: int| 0 <= i < init.len() implies #[trigger] parse_track_uri(
                init[i],
            ) is Ok && parse_track_uri(init[i])->Ok_0 is Some by {
                assert(init[i] == cmds[i]);
            }
            let last = cmds.last();
            assert(parse_track_uri(cmds[cmds.len() - 1]) is Ok);
            assert(loaded_tracks(acts) == loaded_tracks(prev).push(track_of(last)));
            assert(cmds.map_values(|c: Seq<u8>| track_of(c)) =~= init.map_values(
                |c: Seq<u8>| track_of(c),
            ).push(track_of(last)));
        }
    }
}

/// A command with a corrupt track identifier loads nothing; the worker stops,
/// stays idle and takes the next command.
pub proof fn lemma_malformed_command_leaves_worker_idle(cmd: Seq<u8>)
    requires
        parse_track_uri(cmd) is Err,
    ensures
        action_for(cmd) == WorkerAction::StopOnly(Rejection::MalformedId),
        playback_after(action_for(cmd)) == Playback::Idle,
{
}

impl PlaybackWorker {
    /// A worker with nothing loaded.
    pub fn new() -> (w: PlaybackWorker)
        ensures
            w.playback == Playback::Idle,
    {
        PlaybackWorker { playback: Playback::Idle }
    }

    /// Decides what to do with the command `cmd` and records the playback
    /// state that follows. A command that loads nothing leaves the worker idle
    /// and ready for the next one.
    pub fn handle_command(&mut self, cmd: &str) -> (a: WorkerAction)
        ensures
            a == action_for(cmd.spec_bytes()),
            final(self).playback == playback_after(a),
            (final(self).playback, seq![a]) == run_commands(
                old(self).playback,
                seq![cmd.spec_bytes()],
            ),
    {
        let a = match track_id_from_spotify_uri(cmd) {
            Ok(Some(t)) => WorkerAction::StopThenLoad(t),
            Ok(None) => WorkerAction::StopOnly(Rejection::NotATrack),
            Err(MalformedTrackId) => WorkerAction::StopOnly(Rejection::MalformedId),
        };
        self.playback = match a {
            WorkerAction::StopThenLoad(t) => Playback::Playing(t),
            WorkerAction::StopOnly(_) => Playback::Idle,
        };
        proof {
            let one = seq![cmd.spec_bytes()];
            assert(one.drop_last() =~= Seq::<Seq<u8>>::empty());
            assert(seq![a] =~= Seq::<WorkerAction>::empty().push(a));
            assert(run_commands(old(self).playback, one.drop_last()).1 == Seq::<
                WorkerAction,
            >::empty());
            assert(one.last() == cmd.spec_bytes());
        }
        a
    }
}

} // verus!
