use bachmodem::melody::get_melody_indices;

#[test]
fn test_melody_pattern_cycles() {
    let indices = get_melody_indices(20);
    let pattern: Vec<usize> = vec![0, 7, 4, 12, 2, 9, 5, 14, 1, 8, 3, 11, 6, 13, 10, 15];
    assert_eq!(&indices[0..16], pattern.as_slice());
    assert_eq!(indices[16], 0);
    assert_eq!(indices[17], 7);
    assert_eq!(indices[18], 4);
    assert_eq!(indices[19], 12);
}

#[test]
fn test_melody_empty() {
    assert_eq!(get_melody_indices(0), Vec::<usize>::new());
}
