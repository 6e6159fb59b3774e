use blamejules::Cmd;
use blamejules::Pool;
use blamejules::Rgb;
use blamejules::Vec2;
use blamejules::chunk_pixels;

#[test]
fn chunks_are_contiguous_and_cover_everything() {
    let pixels: Vec<(Vec2, Rgb)> = (0..5u32).map(|i| (Vec2(i, 0), Rgb(i as u8, 0, 0))).collect();
    let chunks = chunk_pixels(&pixels, 2);
    assert_eq!(chunks.len(), 2);
    assert_eq!(chunks[0].len(), 2);
    assert_eq!(chunks[1].len(), 3);
    let flat: Vec<(Vec2, Rgb)> = chunks.into_iter().flatten().collect();
    assert_eq!(flat, pixels);
}

#[test]
fn one_chunk_takes_everything() {
    let pixels: Vec<(Vec2, Rgb)> = (0..7u32).map(|i| (Vec2(i, i), Rgb(1, 2, 3))).collect();
    let chunks = chunk_pixels(&pixels, 1);
    assert_eq!(chunks.len(), 1);
    assert_eq!(chunks[0], pixels);
}

#[test]
fn as_many_chunks_as_pixels() {
    let pixels: Vec<(Vec2, Rgb)> = (0..4u32).map(|i| (Vec2(i, 9), Rgb(0, i as u8, 0))).collect();
    let chunks = chunk_pixels(&pixels, 4);
    assert_eq!(chunks.len(), 4);
    for (i, chunk) in chunks.iter().enumerate() {
        assert_eq!(chunk.as_slice(), &pixels[i..i + 1]);
    }
}

#[test]
fn end_to_end_two_by_two_canvas() {
    // A 2x2 canvas painted through a pool of two workers: after the chunks
    // are submitted and the workers drain, the connections observed exactly
    // the four well-formed `PX` lines, in some order.
    let pixels: Vec<(Vec2, Rgb)> = vec![
        (Vec2(0, 0), Rgb(255, 0, 0)),
        (Vec2(1, 0), Rgb(0, 255, 0)),
        (Vec2(0, 1), Rgb(0, 0, 255)),
        (Vec2(1, 1), Rgb(255, 255, 255)),
    ];
    let chunks = chunk_pixels(&pixels, 2);
    assert_eq!(chunks.len(), 2);

    let mut pool = Pool::new(2, blamejules::QUEUE_CAPACITY);
    for (producer, chunk) in chunks.into_iter().enumerate() {
        for (coordinate, color) in chunk {
            assert!(pool.try_enqueue(producer, Cmd::SetPx(coordinate, color)));
        }
    }
    for w in 0..2 {
        while pool.workers[w].queue.len() > 0 {
            pool.worker_step(w, true);
        }
    }

    let mut observed: Vec<String> = Vec::new();
    for w in 0..2 {
        assert!(pool.workers[w].failed.is_empty());
        for cmd in &pool.workers[w].sent {
            observed.push(cmd.to_string());
        }
    }
    let mut expected = vec![
        "PX 0 0 ff0000".to_owned(),
        "PX 1 0 00ff00".to_owned(),
        "PX 0 1 0000ff".to_owned(),
        "PX 1 1 ffffff".to_owned(),
    ];
    observed.sort();
    expected.sort();
    assert_eq!(observed, expected);
}

#[test]
fn more_chunks_than_pixels() {
    // With more chunks than pixels the equal share is zero: the first
    // chunks come out empty and the last absorbs everything.
    let pixels: Vec<(Vec2, Rgb)> = (0..3u32).map(|i| (Vec2(i, 2), Rgb(5, 6, 7))).collect();
    let chunks = chunk_pixels(&pixels, 5);
    assert_eq!(chunks.len(), 5);
    for chunk in &chunks[0..4] {
        assert!(chunk.is_empty());
    }
    assert_eq!(chunks[4], pixels);
}
