use clip_player::player::{decoded_byte_size, Loops};

#[test]
fn looping_off_plays_once() {
    let loops = Loops::from_config(false, Some(7));
    assert!(matches!(loops, Loops::Once));
    assert_eq!(loops.pass_count(), Some(1));
}

#[test]
fn looping_with_count_is_bounded() {
    let loops = Loops::from_config(true, Some(7));
    assert!(matches!(loops, Loops::Count(7)));
    assert_eq!(loops.pass_count(), Some(7));
}

#[test]
fn looping_without_count_is_infinite() {
    let loops = Loops::from_config(true, None);
    assert!(matches!(loops, Loops::Infinite));
    assert_eq!(loops.pass_count(), None);
}

#[test]
fn byte_size_is_the_exact_product() {
    // stereo, CD sample rate, a thousand samples in the span.
    assert_eq!(decoded_byte_size(2, 44100, 1000), Some(88_200_000));
    assert_eq!(decoded_byte_size(1, 8000, 0), Some(0));
}

#[test]
fn byte_size_reports_overflow() {
    assert_eq!(decoded_byte_size(u16::MAX, u32::MAX, usize::MAX), None);
}
