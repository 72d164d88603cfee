use rsimg::options::parse_options;
use rsimg::run::{Action, Dispatcher, Event, Phase, RunError};

fn entry(name: &str) -> Event {
    Event::Entry { is_file: true, file_name: name.to_string() }
}

#[test]
fn resizes_only_images_in_directory() {
    let config = parse_options("size=10x10").unwrap();
    let mut d = Dispatcher::new(config);
    assert_eq!(d.step(Event::SourceChecked { is_dir: true }), Action::StartWalk);
    assert_eq!(
        d.step(Event::Entry { is_file: false, file_name: "dir".to_string() }),
        Action::NextEntry
    );
    let mut resized = Vec::new();
    for (name, width, height) in [("a.png", 40, 30), ("b.txt", 0, 0), ("c.jpg", 5, 7)] {
        match d.step(entry(name)) {
            Action::Decode => {
                match d.step(Event::Decoded { width, height }) {
                    Action::Resize { width, height, filter } => {
                        resized.push((name, width, height, filter));
                    }
                    other => panic!("unexpected {other:?}"),
                }
                assert_eq!(d.step(Event::Saved), Action::NextEntry);
            }
            Action::NextEntry => assert_eq!(name, "b.txt"),
            other => panic!("unexpected {other:?}"),
        }
    }
    assert_eq!(d.step(Event::WalkEnded), Action::Finish);
    assert!(d.is_finished());
    assert_eq!(
        resized,
        vec![
            ("a.png", 10, 10, config.filter),
            ("c.jpg", 10, 10, config.filter),
        ]
    );
}

#[test]
fn file_source_fails_before_walk() {
    let config = parse_options("size=10x10").unwrap();
    let mut d = Dispatcher::new(config);
    assert_eq!(
        d.step(Event::SourceChecked { is_dir: false }),
        Action::Abort { error: RunError::NotADirectory }
    );
    assert_eq!(d.phase, Phase::Finished);
    assert!(!d.accepts(&entry("a.png")));
    assert!(!d.accepts(&Event::WalkEnded));
}

#[test]
fn scaled_run_uses_native_size() {
    let config = parse_options("size=50%,filter=lanczos3").unwrap();
    let mut d = Dispatcher::new(config);
    d.step(Event::SourceChecked { is_dir: true });
    assert_eq!(d.step(entry("x.jpeg")), Action::Decode);
    assert_eq!(
        d.step(Event::Decoded { width: 101, height: 64 }),
        Action::Resize { width: 50, height: 32, filter: config.filter }
    );
}

#[test]
fn failures_stop_the_run() {
    let config = parse_options("size=1x1").unwrap();
    let mut d = Dispatcher::new(config);
    d.step(Event::SourceChecked { is_dir: true });
    assert_eq!(d.step(Event::Failed), Action::Abort { error: RunError::Traversal });

    let mut d = Dispatcher::new(config);
    d.step(Event::SourceChecked { is_dir: true });
    d.step(entry("a.png"));
    assert_eq!(d.step(Event::Failed), Action::Abort { error: RunError::ImageIo });
    assert!(d.is_finished());

    let mut d = Dispatcher::new(config);
    d.step(Event::SourceChecked { is_dir: true });
    d.step(entry("a.png"));
    d.step(Event::Decoded { width: 3, height: 3 });
    assert!(d.accepts(&Event::Saved));
    assert_eq!(d.step(Event::Failed), Action::Abort { error: RunError::ImageIo });
}

#[test]
fn non_file_entries_are_skipped() {
    let config = parse_options("size=1x1").unwrap();
    let mut d = Dispatcher::new(config);
    d.step(Event::SourceChecked { is_dir: true });
    assert_eq!(
        d.step(Event::Entry { is_file: false, file_name: "folder.png".to_string() }),
        Action::NextEntry
    );
}
