use cn_input_encode::chunk::{chunk_step, ChunkStep};

#[test]
fn chunk_of_whole_characters_is_handed_on() {
    let b = "中a".as_bytes();
    assert_eq!(chunk_step(b, b.len()), ChunkStep::Emit(4));
    assert_eq!(chunk_step(b, 1), ChunkStep::Emit(4));
}

#[test]
fn chunk_cut_inside_a_character_keeps_the_rest() {
    let b = "a中".as_bytes();
    assert_eq!(chunk_step(&b[..2], 2), ChunkStep::Emit(1));
    assert_eq!(chunk_step(&b[..3], 1), ChunkStep::Emit(1));
    assert_eq!(chunk_step(&b[1..3], 2), ChunkStep::Emit(0));
}

#[test]
fn chunk_with_invalid_bytes_is_refused() {
    assert_eq!(chunk_step(&[b'a', 0xff], 2), ChunkStep::Invalid);
    assert_eq!(chunk_step(&[0xe4, b'a'], 2), ChunkStep::Invalid);
}

#[test]
fn chunk_at_end_of_file() {
    assert_eq!(chunk_step(&[], 0), ChunkStep::Done);
    assert_eq!(chunk_step(&"中".as_bytes()[..1], 0), ChunkStep::Truncated);
}
