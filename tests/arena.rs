//! Chunk arena and event ring.

use udon_core::arena::{ChunkArena, ChunkSlice};
use udon_core::event::StreamingEvent;
use udon_core::ring::EventRing;
use udon_core::span::Span;

#[test]
fn test_chunk_slice() {
    let slice = ChunkSlice::new(0, 10, 20);
    assert_eq!(slice.len(), 10);
    assert!(!slice.is_empty());

    let empty = ChunkSlice::new(0, 5, 5);
    assert!(empty.is_empty());
}

#[test]
fn test_chunk_arena() {
    let mut arena = ChunkArena::new();
    assert!(arena.is_empty());

    let idx = arena.push(b"hello world".to_vec());
    assert_eq!(idx, 0);
    assert_eq!(arena.len(), 1);

    let slice = ChunkSlice::new(0, 0, 5);
    assert_eq!(arena.resolve(slice), Some(b"hello".as_slice()));

    let idx2 = arena.push(b"goodbye".to_vec());
    assert_eq!(idx2, 1);
    assert_eq!(arena.len(), 2);
}

#[test]
fn test_event_ring_basic() {
    let mut ring = EventRing::new(4);
    assert!(ring.is_empty());
    assert!(!ring.is_full());
    assert_eq!(ring.available(), 0);
    assert_eq!(ring.space(), 4);

    ring.push(StreamingEvent::ElementEnd { span: Span::new(0, 0) });
    assert_eq!(ring.available(), 1);
    assert_eq!(ring.space(), 3);

    let event = ring.pop();
    assert!(matches!(event, Some(StreamingEvent::ElementEnd { .. })));
    assert!(ring.is_empty());
}

#[test]
fn test_event_ring_wrap() {
    let mut ring = EventRing::new(4);

    for i in 0..4 {
        ring.push(StreamingEvent::IntegerValue { value: i, span: Span::new(0, 0) });
    }
    assert!(ring.is_full());
    assert_eq!(
        ring.try_push(StreamingEvent::NilValue { span: Span::new(0, 0) }),
        Err(StreamingEvent::NilValue { span: Span::new(0, 0) })
    );

    assert!(matches!(ring.pop(), Some(StreamingEvent::IntegerValue { value: 0, .. })));
    assert!(matches!(ring.pop(), Some(StreamingEvent::IntegerValue { value: 1, .. })));

    ring.push(StreamingEvent::IntegerValue { value: 100, span: Span::new(0, 0) });
    ring.push(StreamingEvent::IntegerValue { value: 101, span: Span::new(0, 0) });

    assert!(matches!(ring.pop(), Some(StreamingEvent::IntegerValue { value: 2, .. })));
    assert!(matches!(ring.pop(), Some(StreamingEvent::IntegerValue { value: 3, .. })));
    assert!(matches!(ring.pop(), Some(StreamingEvent::IntegerValue { value: 100, .. })));
    assert!(matches!(ring.pop(), Some(StreamingEvent::IntegerValue { value: 101, .. })));
    assert!(ring.is_empty());
}

#[test]
fn arena_resolve_rejects_out_of_range_handles() {
    let mut arena = ChunkArena::new();
    arena.push(b"abc".to_vec());
    assert_eq!(arena.resolve(ChunkSlice::new(1, 0, 1)), None);
    assert_eq!(arena.resolve(ChunkSlice::new(0, 2, 4)), None);
    assert_eq!(arena.resolve(ChunkSlice::new(0, 2, 1)), None);
    assert_eq!(arena.resolve(ChunkSlice::new(0, 3, 3)), Some(b"".as_slice()));
}

#[test]
fn arena_tracks_stream_offsets_and_clear() {
    let mut arena = ChunkArena::default();
    arena.push(b"hello".to_vec());
    arena.push(b"world!".to_vec());
    assert_eq!(arena.total_bytes(), 11);
    assert_eq!(arena.get(0).unwrap().stream_offset(), 0);
    assert_eq!(arena.get(1).unwrap().stream_offset(), 5);
    assert_eq!(arena.get(1).unwrap().data(), b"world!");
    assert_eq!(arena.get(1).unwrap().slice(1, 3), b"or");
    assert!(arena.get(2).is_none());
    arena.advance_consumed(1);
    arena.clear();
    assert!(arena.is_empty());
    assert_eq!(arena.total_bytes(), 0);
}

#[test]
fn ring_capacity_rounds_up_to_power_of_two() {
    assert_eq!(EventRing::new(0).capacity(), 2);
    assert_eq!(EventRing::new(3).capacity(), 4);
    assert_eq!(EventRing::new(5).capacity(), 8);
    assert_eq!(EventRing::new(1024).capacity(), 1024);
    assert_eq!(EventRing::with_default_capacity().capacity(), 1024);
}

#[test]
fn ring_peek_get_and_clear() {
    let mut ring = EventRing::new(2);
    assert!(ring.peek().is_none());
    ring.push(StreamingEvent::IntegerValue { value: 7, span: Span::new(1, 2) });
    ring.push(StreamingEvent::IntegerValue { value: 8, span: Span::new(2, 3) });
    assert!(matches!(ring.peek(), Some(StreamingEvent::IntegerValue { value: 7, .. })));
    assert!(matches!(ring.get(1), Some(StreamingEvent::IntegerValue { value: 8, .. })));
    assert!(ring.get(2).is_none());
    ring.clear();
    assert!(ring.is_empty());
    assert_eq!(ring.capacity(), 2);
}
