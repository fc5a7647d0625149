//! Scenario tests for the session controller, driven through the public API
//! and checked against the real frame codec.

use defmt_logger_tcp::registry::Chunk;
use defmt_logger_tcp::session::{Session, SessionFault};

/// Appends each planned chunk to the byte stream of its connection.
fn deliver(streams: &mut Vec<(u64, Vec<u8>)>, plan: Vec<Chunk>) {
    for chunk in plan {
        match streams.iter_mut().find(|(id, _)| *id == chunk.id) {
            Some((_, bytes)) => bytes.extend_from_slice(&chunk.bytes),
            None => streams.push((chunk.id, chunk.bytes)),
        }
    }
}

fn stream_of(streams: &[(u64, Vec<u8>)], id: u64) -> Vec<u8> {
    streams
        .iter()
        .find(|(i, _)| *i == id)
        .map(|(_, b)| b.clone())
        .unwrap_or_default()
}

/// The frame the codec itself produces for the given payloads: the reference
/// for what one connection must receive over one session.  `first` says
/// whether it is the connection's very first frame.
fn reference_frame(first: bool, payloads: &[&[u8]]) -> Vec<u8> {
    let mut enc = defmt::Encoder::new();
    if !first {
        let mut sink: Vec<u8> = Vec::new();
        enc.start_frame(|b| sink.extend_from_slice(b));
        enc.end_frame(|b| sink.extend_from_slice(b));
    }
    let mut out: Vec<u8> = Vec::new();
    enc.start_frame(|b| out.extend_from_slice(b));
    for p in payloads {
        enc.write(p, |b| out.extend_from_slice(b));
    }
    enc.end_frame(|b| out.extend_from_slice(b));
    out
}

#[test]
fn zero_connections_session_is_silent() {
    let mut s = Session::new();
    let plan = s.begin_session().unwrap();
    assert!(plan.is_empty());
    let plan = s.emit(b"x");
    assert!(plan.is_empty());
    let plan = s.end_session();
    assert!(plan.is_empty());
    assert!(s.active_ids().is_empty());
    assert!(s.pending_ids().is_empty());
}

#[test]
fn reentrant_begin_is_a_fault_and_broadcasts_nothing() {
    let mut s = Session::new();
    let id = s.admit_pending();
    let mut streams: Vec<(u64, Vec<u8>)> = Vec::new();
    deliver(&mut streams, s.begin_session().unwrap());
    let r = s.begin_session();
    assert!(matches!(r, Err(SessionFault::ReentrantBegin)));
    assert!(s.is_active());
    assert_eq!(s.active_ids(), vec![id]);
    deliver(&mut streams, s.emit(b"x"));
    deliver(&mut streams, s.end_session());
    // the erroneous call left no trace in the stream
    assert_eq!(stream_of(&streams, id), reference_frame(true, &[b"x"]));
}

#[test]
fn all_connections_receive_identical_full_frames() {
    let mut s = Session::new();
    let a = s.admit_pending();
    let b = s.admit_pending();
    let mut streams: Vec<(u64, Vec<u8>)> = Vec::new();
    deliver(&mut streams, s.begin_session().unwrap());
    deliver(&mut streams, s.emit(b"a"));
    deliver(&mut streams, s.emit(b"b"));
    deliver(&mut streams, s.end_session());
    let sa = stream_of(&streams, a);
    let sb = stream_of(&streams, b);
    assert_eq!(sa, sb);
    assert_eq!(sa, reference_frame(true, &[b"a", b"b"]));
    // the codec's exact bytes: initial separator, the two payload bytes, the
    // run-length trailer, the frame separator
    assert_eq!(sa, vec![0x00, 0x61, 0x62, 0x7C, 0x00]);
}

#[test]
fn connection_admitted_mid_session_receives_nothing_until_next_boundary() {
    let mut s = Session::new();
    let a = s.admit_pending();
    let mut streams: Vec<(u64, Vec<u8>)> = Vec::new();
    deliver(&mut streams, s.begin_session().unwrap());
    let late = s.admit_pending();
    let plan = s.emit(b"a");
    assert_eq!(plan.len(), 1);
    assert_eq!(plan[0].id, a);
    deliver(&mut streams, plan);
    let plan = s.end_session();
    assert!(plan.iter().all(|c| c.id == a));
    deliver(&mut streams, plan);
    // promoted at the boundary: active for the next session
    assert_eq!(s.active_ids(), vec![a, late]);
    assert_eq!(stream_of(&streams, late), Vec::<u8>::new());
    let mut plan = s.begin_session().unwrap();
    assert_eq!(
        plan.drain(..).map(|c| c.id).collect::<Vec<u64>>(),
        vec![a, late]
    );
    s.end_session();
}

#[test]
fn failed_connection_is_pruned_and_the_rest_are_undisturbed() {
    let mut s = Session::new();
    let a = s.admit_pending();
    let b = s.admit_pending();
    let mut streams: Vec<(u64, Vec<u8>)> = Vec::new();
    deliver(&mut streams, s.begin_session().unwrap());
    deliver(&mut streams, s.emit(b"a"));
    // connection `a` times out on that write: the embedding program reports it
    s.prune(&vec![a]);
    assert_eq!(s.active_ids(), vec![b]);
    let plan = s.emit(b"b");
    assert!(plan.iter().all(|c| c.id == b));
    deliver(&mut streams, plan);
    deliver(&mut streams, s.end_session());
    // the survivor's frame is complete and well formed
    assert_eq!(stream_of(&streams, b), reference_frame(true, &[b"a", b"b"]));
}

#[test]
fn peer_close_mid_emission_leaves_survivor_with_whole_frame() {
    let mut s = Session::new();
    let a = s.admit_pending();
    let b = s.admit_pending();
    let mut streams: Vec<(u64, Vec<u8>)> = Vec::new();
    deliver(&mut streams, s.begin_session().unwrap());
    deliver(&mut streams, s.emit(b"log line"));
    // peer of `b` closed its end: the write fails and `b` is reported
    s.prune(&vec![b]);
    deliver(&mut streams, s.emit(b" more"));
    deliver(&mut streams, s.end_session());
    assert!(!s.active_ids().contains(&b));
    assert_eq!(s.active_ids(), vec![a]);
    assert_eq!(
        stream_of(&streams, a),
        reference_frame(true, &[b"log line", b" more"])
    );
}

#[test]
fn connection_admitted_between_sessions_gets_the_next_full_frame() {
    let mut s = Session::new();
    let a = s.admit_pending();
    let mut streams: Vec<(u64, Vec<u8>)> = Vec::new();
    deliver(&mut streams, s.begin_session().unwrap());
    deliver(&mut streams, s.emit(b"first"));
    deliver(&mut streams, s.end_session());
    // admitted between session A's end and session B's begin
    let late = s.admit_pending();
    assert_eq!(s.pending_ids(), vec![late]);
    deliver(&mut streams, s.begin_session().unwrap());
    deliver(&mut streams, s.emit(b"second"));
    deliver(&mut streams, s.end_session());
    // nothing of session A, all of session B, as its codec's first frame
    assert_eq!(stream_of(&streams, late), reference_frame(true, &[b"second"]));
    // the older connection got both frames
    let mut expected = reference_frame(true, &[b"first"]);
    expected.extend_from_slice(&reference_frame(false, &[b"second"]));
    assert_eq!(stream_of(&streams, a), expected);
}

#[test]
fn flush_changes_no_state_and_breaks_no_frame() {
    let mut s = Session::new();
    let a = s.admit_pending();
    let mut streams: Vec<(u64, Vec<u8>)> = Vec::new();
    deliver(&mut streams, s.begin_session().unwrap());
    deliver(&mut streams, s.emit(b"a"));
    let ids = s.flush();
    assert_eq!(ids, vec![a]);
    assert!(s.is_active());
    deliver(&mut streams, s.emit(b"b"));
    assert_eq!(s.flush(), vec![a]);
    deliver(&mut streams, s.end_session());
    assert!(!s.is_active());
    assert_eq!(s.flush(), vec![a]);
    assert_eq!(stream_of(&streams, a), reference_frame(true, &[b"a", b"b"]));
}

#[test]
fn payload_bytes_are_encoded_not_echoed() {
    let mut s = Session::new();
    let a = s.admit_pending();
    let mut streams: Vec<(u64, Vec<u8>)> = Vec::new();
    deliver(&mut streams, s.begin_session().unwrap());
    let plan = s.emit(&[0x00]);
    // a zero byte is withheld by the run-length encoding, not sent through
    assert_eq!(plan.len(), 1);
    assert!(plan[0].bytes.is_empty());
    deliver(&mut streams, plan);
    deliver(&mut streams, s.end_session());
    assert_eq!(stream_of(&streams, a), vec![0x00, 0x7F, 0x00]);
    assert_eq!(stream_of(&streams, a), reference_frame(true, &[&[0x00]]));
}

#[test]
fn handles_are_stable_and_never_reused() {
    let mut s = Session::new();
    let a = s.admit_pending();
    let b = s.admit_pending();
    let c = s.admit_pending();
    assert!(a < b && b < c);
    s.begin_session().unwrap();
    s.end_session();
    s.prune(&vec![b]);
    assert_eq!(s.active_ids(), vec![a, c]);
    let d = s.admit_pending();
    assert!(d > c);
    assert_eq!(s.pending_ids(), vec![d]);
}
