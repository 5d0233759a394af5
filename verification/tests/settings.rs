use cima::settings::{env_flag, forced_dialect, number_of, turned_off};
use cima::tokenizer::chat::Dialect;

#[test]
fn switches_read_their_value() {
    assert_eq!(env_flag(None), None);
    for off in ["0", " False ", "NO", "off", "", "  "] {
        assert_eq!(env_flag(Some(off)), Some(false), "{off}");
    }
    for on in ["1", "true", "yes", "anything"] {
        assert_eq!(env_flag(Some(on)), Some(true), "{on}");
    }
    assert!(turned_off(Some("1")));
    assert!(!turned_off(Some("0")) && !turned_off(None));
}

#[test]
fn other_settings() {
    assert_eq!(forced_dialect(Some("classic")), Some(Dialect::Classic));
    assert_eq!(forced_dialect(Some("turn")), Some(Dialect::Turn));
    assert_eq!(forced_dialect(Some("chatml")), None);
    assert_eq!(number_of(Some("4096")), Some(4096));
    assert_eq!(number_of(Some("many")), None);
    assert_eq!(number_of(None), None);
}
