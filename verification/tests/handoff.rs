use crossbeam_channel::{bounded, unbounded};
use gzcsv_filter::handoff::{ChunkSender, DEFAULT_CHANNEL_BOUND};

#[test]
fn chunk_that_is_sent_arrives() {
    let (tx, rx) = bounded::<Vec<u8>>(4);
    let mut out = ChunkSender::new(tx);
    assert!(out.send(b"x,9\n".to_vec()));
    assert_eq!(rx.try_recv(), Ok(b"x,9\n".to_vec()));
}

#[test]
fn chunks_of_one_sender_arrive_in_the_order_sent() {
    let (tx, rx) = unbounded::<Vec<u8>>();
    let mut out = ChunkSender::new(tx);
    assert!(out.send(b"a\n".to_vec()));
    assert!(out.send(b"b\n".to_vec()));
    assert!(out.send(b"c\n".to_vec()));
    drop(out);
    let got: Vec<Vec<u8>> = rx.iter().collect();
    assert_eq!(got, vec![b"a\n".to_vec(), b"b\n".to_vec(), b"c\n".to_vec()]);
}

#[test]
fn disconnected_channel_refuses_the_chunk() {
    let (tx, rx) = bounded::<Vec<u8>>(4);
    drop(rx);
    let mut out = ChunkSender::new(tx);
    assert!(!out.send(b"x,9\n".to_vec()));
    assert!(!out.send(b"y,1\n".to_vec()));
}

#[test]
fn dropping_the_last_sender_ends_the_stream() {
    let (tx, rx) = bounded::<Vec<u8>>(4);
    let out = ChunkSender::new(tx);
    drop(out);
    assert!(rx.recv().is_err());
}

#[test]
fn default_channel_bound_is_a_thousand_chunks() {
    assert_eq!(DEFAULT_CHANNEL_BOUND, 1000);
}
