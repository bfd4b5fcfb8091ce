use beatrice::model::{Row, Value};
use beatrice::state::{resolve_timestamp, StateError};
use beatrice::BeatriceState;
use bytes::Bytes;

#[test]
fn a_given_timestamp_is_taken_as_it_is() {
    assert_eq!(resolve_timestamp(7, None), Ok(7));
    assert_eq!(resolve_timestamp(7, Some(99)), Ok(7));
    assert_eq!(resolve_timestamp(u64::MAX, Some(u128::MAX)), Ok(u64::MAX));
}

#[test]
fn timestamp_zero_asks_the_clock() {
    assert_eq!(resolve_timestamp(0, Some(1_600_000_000_000)), Ok(1_600_000_000_000));
    assert_eq!(resolve_timestamp(0, Some(0)), Ok(0));
    assert_eq!(resolve_timestamp(0, Some(u64::MAX as u128)), Ok(u64::MAX));
    assert_eq!(
        resolve_timestamp(0, Some(u64::MAX as u128 + 1)),
        Err(StateError::Clock)
    );
    assert_eq!(resolve_timestamp(0, None), Err(StateError::Clock));
}

#[test]
fn state_applies_requests_to_its_store() {
    let mut state = BeatriceState::new();
    let row = || Row::new(Bytes::from("row"));
    assert_eq!(state.get(&row()), Err(StateError::NotFound));
    assert!(state.has_room(&row(), 5, &Value::Val(Bytes::from("five"))));
    assert_eq!(state.put(row(), 5, Bytes::from("five"), None), Ok(()));
    assert_eq!(state.get(&row()), Ok((5, Bytes::from("five"))));
    assert_eq!(state.put(row(), 0, Bytes::from("lost"), None), Err(StateError::Clock));
    assert_eq!(state.get(&row()), Ok((5, Bytes::from("five"))));
    assert_eq!(state.put(row(), 0, Bytes::from("now"), Some(1000)), Ok(()));
    assert_eq!(state.get(&row()), Ok((1000, Bytes::from("now"))));
    assert_eq!(state.delete(row(), 0, None), Err(StateError::Clock));
    assert_eq!(state.delete(row(), 0, Some(2000)), Ok(()));
    assert_eq!(state.get(&row()), Err(StateError::NotFound));
    assert_eq!(state.pending(), 3);
    assert!(state.can_flush());
    state.flush(true, 44, 9);
    assert_eq!(state.pending(), 0);
    assert!(!state.can_flush());
    assert_eq!(state.get(&row()), Err(StateError::NotFound));
    assert_eq!(state.put(row(), 3000, Bytes::from("back"), None), Ok(()));
    assert_eq!(state.get(&row()), Ok((3000, Bytes::from("back"))));
}
