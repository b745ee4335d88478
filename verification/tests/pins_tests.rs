use timelapse::ipc::Pin;
use timelapse::pins::PinStore;

#[test]
fn pin_overwrites_and_unpin_removes() {
    let mut pins = PinStore::new();
    assert_eq!(pins.get("keep"), None);
    pins.pin("keep", 10);
    pins.pin("other", 20);
    pins.pin("keep", 11);
    assert_eq!(
        pins.pins,
        vec![Pin { name: "keep".to_string(), id: 11 }, Pin { name: "other".to_string(), id: 20 }]
    );
    assert_eq!(pins.get("keep"), Some(11));
    assert_eq!(pins.get("kee"), None);
    assert_eq!(pins.pinned_ids(), vec![11, 20]);
    assert!(pins.unpin("keep"));
    assert!(!pins.unpin("keep"));
    assert_eq!(pins.get("keep"), None);
    assert_eq!(pins.get("other"), Some(20));
    assert_eq!(pins.pinned_ids(), vec![20]);
}

#[test]
fn pins_on_distinct_names_are_independent() {
    let mut pins = PinStore::new();
    pins.pin("a", 1);
    pins.pin("b", 1);
    pins.unpin("a");
    assert_eq!(pins.get("b"), Some(1));
    assert_eq!(pins.position("b"), Some(0));
}
