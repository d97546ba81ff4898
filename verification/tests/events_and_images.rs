use type_animals::app_paths::{
    app_dir_for, data_layout, get_json_path, initialize_app_data_path, JSON_FILE,
};
use type_animals::images::{random_window_position, ImageManager, SCREEN_HEIGHT, SCREEN_WIDTH};
use type_animals::key_counts::{initialize_key_count, KeyCounts};
use type_animals::key_events::{
    loop_step, process_key_event, requests_quit, try_process_key_event, InputEvent, KeyEventError,
    LoopAction, Message, DISPLAY_SECONDS,
};
use type_animals::spell_book::SpellBook;

fn setup(pairs: &[(&str, &str)]) -> (KeyCounts, SpellBook) {
    let book = SpellBook::from_pairs(pairs.iter().map(|(a, b)| (a.to_string(), b.to_string())).collect());
    let mut counts = KeyCounts::new();
    initialize_key_count(&mut counts, &book);
    (counts, book)
}

#[test]
fn key_lines_bring_up_an_image() {
    let (mut counts, book) = setup(&[("cat", "/i/cat.jpeg")]);
    assert_eq!(process_key_event(&mut counts, &book, "KeyC".to_string()), None);
    assert_eq!(process_key_event(&mut counts, &book, "ShiftLeft".to_string()), None);
    assert_eq!(process_key_event(&mut counts, &book, "KeyA".to_string()), None);
    assert_eq!(
        process_key_event(&mut counts, &book, "KeyT".to_string()),
        Some(Message::DisplayImage { path: "/i/cat.jpeg".to_string(), duration: DISPLAY_SECONDS })
    );
    assert_eq!(DISPLAY_SECONDS, 3);
}

#[test]
fn try_process_reports_malformed_names() {
    let (mut counts, book) = setup(&[("cat", "c.png")]);
    assert_eq!(try_process_key_event(&mut counts, &book, "Up".to_string()), Err(KeyEventError::MalformedKeyName));
    assert_eq!(try_process_key_event(&mut counts, &book, "Key".to_string()), Err(KeyEventError::MalformedKeyName));
    assert_eq!(try_process_key_event(&mut counts, &book, "a\u{20ac}".to_string()), Err(KeyEventError::MalformedKeyName));
    assert_eq!(try_process_key_event(&mut counts, &book, "KeyC".to_string()), Ok(None));
}

#[test]
fn try_process_reports_unknown_spells() {
    let (mut counts, _) = setup(&[("ox", "o.png")]);
    let other = SpellBook::new();
    assert_eq!(try_process_key_event(&mut counts, &other, "KeyO".to_string()), Ok(None));
    assert_eq!(try_process_key_event(&mut counts, &other, "KeyX".to_string()), Err(KeyEventError::UnknownSpell));
    // nothing changed: the spell still waits for its last letter
    let book = SpellBook::from_pairs(vec![("ox".to_string(), "o.png".to_string())]);
    assert_eq!(
        try_process_key_event(&mut counts, &book, "KeyX".to_string()),
        Ok(Some(Message::DisplayImage { path: "o.png".to_string(), duration: 3 }))
    );
}

#[test]
fn quit_events() {
    assert!(requests_quit(&InputEvent::Quit));
    assert!(requests_quit(&InputEvent::EscapeDown));
    assert!(!requests_quit(&InputEvent::Other));
}

#[test]
fn loop_step_decides() {
    let show = || Some(Message::DisplayImage { path: "p".to_string(), duration: 3 });
    assert_eq!(loop_step(true, true, show()), LoopAction::Stop);
    assert_eq!(loop_step(false, false, show()), LoopAction::Stop);
    assert_eq!(loop_step(false, true, show()), LoopAction::Display { path: "p".to_string(), duration: 3 });
    assert_eq!(loop_step(false, true, Some(Message::Quit)), LoopAction::Stop);
    assert_eq!(loop_step(false, true, None), LoopAction::Idle);
}

#[test]
fn images_get_fresh_ids() {
    let mut m = ImageManager::new();
    assert!(m.is_empty());
    assert_eq!(m.add_image(3, "a.png".to_string(), 0), 0);
    assert_eq!(m.add_image(3, "b.png".to_string(), 10), 1);
    assert_eq!(m.next_id(), 2);
    assert_eq!(m.len(), 2);
    assert!(!m.is_empty());
}

#[test]
fn images_stay_for_their_time() {
    let mut m = ImageManager::new();
    let a = m.add_image(3, "a.png".to_string(), 0);
    let b = m.add_image(5, "b.png".to_string(), 1_000_000_000);
    // exactly three seconds: not over yet
    assert_eq!(m.update(3_000_000_000), Vec::<u32>::new());
    assert_eq!(m.len(), 2);
    assert_eq!(m.update(3_000_000_001), vec![a]);
    assert_eq!(m.len(), 1);
    assert_eq!(m.update(6_000_000_000), Vec::<u32>::new());
    assert_eq!(m.update(6_000_000_001), vec![b]);
    assert!(m.is_empty());
    // ids are not reused
    assert_eq!(m.add_image(1, "c.png".to_string(), 7), 2);
}

#[test]
fn image_before_its_start_is_not_expired() {
    let mut m = ImageManager::new();
    m.add_image(0, "a.png".to_string(), 100);
    assert_eq!(m.update(50), Vec::<u32>::new());
    assert_eq!(m.update(100), Vec::<u32>::new());
    assert_eq!(m.update(101), vec![0]);
}

#[test]
fn window_positions_fit_the_screen() {
    for _ in 0..200 {
        let (x, y) = random_window_position(SCREEN_WIDTH, SCREEN_HEIGHT, 200, 300);
        assert!(x < 1920 - 200);
        assert!(y < 1080 - 300);
    }
    assert_eq!(random_window_position(10, 10, 9, 9), (0, 0));
}

#[test]
fn json_path_is_in_the_data_folder() {
    let mut dir = None;
    initialize_app_data_path(&mut dir, "/home/u/.local/share/type-animal".to_string());
    assert_eq!(dir, Some("/home/u/.local/share/type-animal".to_string()));
    let p = get_json_path(&dir);
    assert_eq!(p, "/home/u/.local/share/type-animal/list.json");
    assert_eq!(JSON_FILE, "list.json");
}

#[test]
fn data_layout_paths() {
    let app = app_dir_for("/data");
    assert_eq!(app, "/data/type-animal");
    let l = data_layout(&app);
    assert_eq!(l.json_path, "/data/type-animal/list.json");
    assert_eq!(l.image_dir, "/data/type-animal/images");
    assert_eq!(l.image_path, "/data/type-animal/images/cat_1.jpeg");
    assert_eq!(app_dir_for("/data/"), "/data/type-animal");
}
