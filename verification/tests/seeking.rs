use acid_store::error::Error;
use acid_store::state::SeekFrom;

#[test]
fn seek_from_start_is_held_to_the_size() {
    assert_eq!(SeekFrom::Start(3).resolved(10, 4), Ok(3));
    assert_eq!(SeekFrom::Start(10).resolved(10, 4), Ok(10));
    assert_eq!(SeekFrom::Start(11).resolved(10, 4), Ok(10));
    assert_eq!(SeekFrom::Start(u64::MAX).resolved(0, 0), Ok(0));
}

#[test]
fn seek_from_end_goes_back() {
    assert_eq!(SeekFrom::End(0).resolved(10, 4), Ok(10));
    assert_eq!(SeekFrom::End(3).resolved(10, 4), Ok(7));
    assert_eq!(SeekFrom::End(10).resolved(10, 4), Ok(0));
    assert_eq!(SeekFrom::End(11).resolved(10, 4), Err(Error::InvalidInput));
    assert_eq!(SeekFrom::End(-3).resolved(10, 4), Ok(10));
    assert_eq!(SeekFrom::End(i64::MIN).resolved(u64::MAX, 0), Ok(u64::MAX));
    assert_eq!(SeekFrom::End(i64::MAX).resolved(u64::MAX, 0), Ok(u64::MAX - i64::MAX as u64));
}

#[test]
fn seek_from_current_goes_on() {
    assert_eq!(SeekFrom::Current(0).resolved(10, 4), Ok(4));
    assert_eq!(SeekFrom::Current(5).resolved(10, 4), Ok(9));
    assert_eq!(SeekFrom::Current(100).resolved(10, 4), Ok(10));
    assert_eq!(SeekFrom::Current(-4).resolved(10, 4), Ok(0));
    assert_eq!(SeekFrom::Current(-5).resolved(10, 4), Err(Error::InvalidInput));
    assert_eq!(SeekFrom::Current(i64::MAX).resolved(u64::MAX, u64::MAX), Ok(u64::MAX));
}
