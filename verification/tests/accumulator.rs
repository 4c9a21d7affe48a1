use gzcsv_filter::accumulator::ChunkAccumulator;

#[test]
fn new_accumulator_is_empty() {
    let acc = ChunkAccumulator::new(8);
    assert_eq!(acc.len(), 0);
    assert_eq!(acc.finish(), None);
}

#[test]
fn lines_below_the_threshold_are_kept() {
    let mut acc = ChunkAccumulator::new(8);
    assert_eq!(acc.append(b"ab\n"), None);
    assert_eq!(acc.len(), 3);
    assert_eq!(acc.append(b"cd\n"), None);
    assert_eq!(acc.len(), 6);
    assert_eq!(acc.finish(), Some(b"ab\ncd\n".to_vec()));
}

#[test]
fn buffer_is_handed_off_when_it_reaches_the_threshold() {
    let mut acc = ChunkAccumulator::new(6);
    assert_eq!(acc.append(b"ab\n"), None);
    assert_eq!(acc.append(b"cd\n"), Some(b"ab\ncd\n".to_vec()));
    assert_eq!(acc.len(), 0);
    assert_eq!(acc.finish(), None);
}

#[test]
fn buffer_is_handed_off_when_it_passes_the_threshold() {
    let mut acc = ChunkAccumulator::new(4);
    assert_eq!(acc.append(b"ab\n"), None);
    assert_eq!(acc.append(b"cdefgh\n"), Some(b"ab\ncdefgh\n".to_vec()));
    assert_eq!(acc.append(b"i\n"), None);
    assert_eq!(acc.finish(), Some(b"i\n".to_vec()));
}

#[test]
fn threshold_zero_hands_off_every_line() {
    let mut acc = ChunkAccumulator::new(0);
    assert_eq!(acc.append(b"a\n"), Some(b"a\n".to_vec()));
    assert_eq!(acc.append(b"b\n"), Some(b"b\n".to_vec()));
    assert_eq!(acc.finish(), None);
}

#[test]
fn fresh_buffer_starts_after_a_hand_off() {
    let mut acc = ChunkAccumulator::new(2);
    assert_eq!(acc.append(b"a\n"), Some(b"a\n".to_vec()));
    assert_eq!(acc.append(b"b"), None);
    assert_eq!(acc.append(b"c"), Some(b"bc".to_vec()));
}
