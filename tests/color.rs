use dogma_rust::color::PyColor;

#[test]
fn colors_compare_by_channel() {
    let a = PyColor(255, 0, 0, 255);
    let b = PyColor(255, 0, 0, 255);
    assert_eq!(a, b);
    assert!(PyColor(1, 2, 3, 4) < PyColor(1, 2, 4, 0));
    assert_eq!(a.0, 255);
    assert_eq!(a.3, 255);
}
