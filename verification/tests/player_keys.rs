use rs_player::id3::Id3V1;
use rs_player::player::{current_mp3, next_browsing, on_play_key, BrowserEvent, PlayAction};

#[test]
fn play_key_from_stopped_with_empty_sink_queues() {
    assert_eq!(on_play_key(false, true), (PlayAction::OpenAndQueue, true));
}

#[test]
fn play_key_from_stopped_with_filled_sink_resumes() {
    assert_eq!(on_play_key(false, false), (PlayAction::OpenAndResume, true));
}

#[test]
fn play_key_while_playing_pauses() {
    assert_eq!(on_play_key(true, true), (PlayAction::Pause, false));
    assert_eq!(on_play_key(true, false), (PlayAction::Pause, false));
}

#[test]
fn play_key_twice_returns_to_start() {
    for playing in [false, true] {
        for e1 in [false, true] {
            for e2 in [false, true] {
                let (_, once) = on_play_key(playing, e1);
                let (_, twice) = on_play_key(once, e2);
                assert_eq!(twice, playing);
            }
        }
    }
}

#[test]
fn browser_toggles_and_closes_after_choice() {
    assert!(next_browsing(false, BrowserEvent::OpenCloseClicked));
    assert!(!next_browsing(true, BrowserEvent::OpenCloseClicked));
    assert!(!next_browsing(true, BrowserEvent::FilesChosen));
    assert!(!next_browsing(false, BrowserEvent::FilesChosen));
}

#[test]
fn current_track_without_file_has_placeholder_tag() {
    let cur = current_mp3::new(None);
    assert_eq!(cur.idx, 0);
    assert!(cur.id3v1_tag == Id3V1::new());
}

#[test]
fn current_track_keeps_the_given_tag() {
    let mut tag = Id3V1::new();
    tag.title = "Track".to_string();
    let cur = current_mp3::new(Some(tag));
    assert_eq!(cur.idx, 0);
    assert_eq!(cur.id3v1_tag.title, "Track");
}

#[test]
fn play_presses_follow_parity() {
    let empties = [true, false, false, true, true];
    let mut playing = false;
    for (n, e) in empties.iter().enumerate() {
        playing = on_play_key(playing, *e).1;
        assert_eq!(playing, (n + 1) % 2 == 1);
    }
}

#[test]
fn browser_uses_follow_parity() {
    let mut shown = false;
    for n in 1..6 {
        shown = next_browsing(shown, BrowserEvent::OpenCloseClicked);
        assert_eq!(shown, n % 2 == 1);
    }
    assert!(!next_browsing(shown, BrowserEvent::FilesChosen));
}
