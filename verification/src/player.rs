//! The player's decisions: what pressing the play key does, and when the file
//! browser is shown.  The caller performs the chosen action on the audio sink.
use vstd::prelude::*;
use crate::id3::Id3V1;

verus! {

/// The track the player shows: its index and its tag.
#[allow(non_camel_case_types)]
#[derive(Debug)]
pub struct current_mp3 {
    pub idx: u32,
    pub id3v1_tag: Id3V1,
}

impl current_mp3 {
    /// The shown track for a file's tag, or for no file (placeholder tag).
    pub fn new(tag: Option<Id3V1>) -> (cur: current_mp3)
        ensures
            cur.idx == 0,
            match tag {
                Some(t) => cur.id3v1_tag == t,
                None => cur.id3v1_tag.is_untagged(),
            },
    {
        let id3v1_tag = match tag {
            Some(t) => t,
            None => Id3V1::new(),
        };
        current_mp3 { idx: 0, id3v1_tag }
    }
}

/// What to do with the audio sink when the play key is pressed.
#[derive(Debug, Clone, Copy, PartialEq, Eq, Structural)]
pub enum PlayAction {
    /// Open the track, read its tag, and queue it on the empty sink.
    OpenAndQueue,
    /// Open the track and read its tag; the sink still holds audio, so resume it.
    OpenAndResume,
    /// Pause the sink; the shown track goes back to the placeholder tag.
    Pause,
}

/// The action for the play key and whether the player is playing afterwards.
pub open spec fn play_key_step(playing: bool, sink_empty: bool) -> (PlayAction, bool) {
    if !playing {
        if sink_empty {
            (PlayAction::OpenAndQueue, true)
        } else {
            (PlayAction::OpenAndResume, true)
        }
    } else {
        (PlayAction::Pause, false)
    }
}

/// Decides what pressing the play key does, given whether the player is playing
/// and whether the sink has run dry.
pub fn on_play_key(playing: bool, sink_empty: bool) -> (step: (PlayAction, bool))
    ensures
        step == play_key_step(playing, sink_empty),
{
    if !playing {
        if sink_empty {
            (PlayAction::OpenAndQueue, true)
        } else {
            (PlayAction::OpenAndResume, true)
        }
    } else {
        (PlayAction::Pause, false)
    }
}

/// The play key toggles: it pauses exactly when playing, and pressing it twice
/// returns the player to whether it was playing, whatever the sink held.
pub proof fn lemma_play_key_toggles(playing: bool, empty1: bool, empty2: bool)
    ensures
        play_key_step(playing, empty1).1 == !playing,
        (play_key_step(playing, empty1).0 == PlayAction::Pause) == playing,
        play_key_step(play_key_step(playing, empty1).1, empty2).1 == playing,
{
}

/// Whether the player is playing after the play key has been pressed once for
/// each element of `empties`, which tells whether the sink was empty at that press.
pub open spec fn playing_after_presses(playing: bool, empties: Seq<bool>) -> bool
    decreases empties.len(),
{
    if empties.len() == 0 {
        playing
    } else {
        play_key_step(playing_after_presses(playing, empties.drop_last()), empties.last()).1
    }
}

/// Over any run of play-key presses, the player is playing exactly when it
/// started playing and the number of presses is even, or it started stopped and
/// the number is odd; what the sink held at each press does not matter.
pub proof fn lemma_play_presses_parity(playing: bool, empties: Seq<bool>)
    ensures
        playing_after_presses(playing, empties) == (playing != (empties.len() % 2 == 1)),
    decreases empties.len(),
{
    if empties.len() > 0 {
        lemma_play_presses_parity(playing, empties.drop_last());
    }
}

/// What happens to the file browser.
#[derive(Debug, Clone, Copy, PartialEq, Eq, Structural)]
pub enum BrowserEvent {
    /// The open/close button (or key) was used.
    OpenCloseClicked,
    /// Files were chosen in the browser and added to the playlist.
    FilesChosen,
}

/// Whether the file browser is shown after `event`.
pub open spec fn browsing_after(browsing: bool, event: BrowserEvent) -> bool {
    match event {
        BrowserEvent::OpenCloseClicked => !browsing,
        BrowserEvent::FilesChosen => false,
    }
}

/// Whether the file browser is shown after the events `events`, in order.
pub open spec fn browsing_after_events(browsing: bool, events: Seq<BrowserEvent>) -> bool
    decreases events.len(),
{
    if events.len() == 0 {
        browsing
    } else {
        browsing_after(browsing_after_events(browsing, events.drop_last()), events.last())
    }
}

/// Over any run of uses of the open/close button (or key), the browser is shown
/// exactly when it started shown and the number of uses is even, or it started
/// hidden and the number is odd.  Once files are chosen it is hidden.
pub proof fn lemma_browser_parity(browsing: bool, events: Seq<BrowserEvent>)
    ensures
        (forall|i: int| 0 <= i < events.len() ==> #[trigger] events[i] == BrowserEvent::OpenCloseClicked)
            ==> browsing_after_events(browsing, events) == (browsing != (events.len() % 2 == 1)),
        events.len() > 0 && events.last() == BrowserEvent::FilesChosen
            ==> !browsing_after_events(browsing, events),
    decreases events.len(),
{
    if events.len() > 0 {
        lemma_browser_parity(browsing, events.drop_last());
        let init = events.drop_last();
        if forall|i: int| 0 <= i < events.len() ==> #[trigger] events[i] == BrowserEvent::OpenCloseClicked {
            assert forall|i: int| 0 <= i < init.len() implies #[trigger] init[i] == BrowserEvent::OpenCloseClicked by {
                assert(init[i] == events[i]);
            }
        }
    }
}

/// Decides whether the file browser is shown after `event`.
pub fn next_browsing(browsing: bool, event: BrowserEvent) -> (shown: bool)
    ensures
        shown == browsing_after(browsing, event),
{
    match event {
        BrowserEvent::OpenCloseClicked => !browsing,
        BrowserEvent::FilesChosen => false,
    }
}

} // verus!
