use senax_encoder::codec::Encoder;
use std::sync::Arc;

#[test]
fn test_arc_is_default_behavior() {
    assert!(Arc::new(String::new()).is_default());
    assert!(Arc::new("".to_string()).is_default());
    assert!(!Arc::new("hello".to_string()).is_default());
    assert!(Arc::new(0i32).is_default());
    assert!(!Arc::new(1i32).is_default());
    assert!(Arc::new(Vec::<u8>::new()).is_default());
    assert!(Arc::new(None::<String>).is_default());
}

#[test]
fn test_box_is_default_behavior() {
    assert!(Box::new(String::new()).is_default());
    assert!(Box::new("".to_string()).is_default());
    assert!(!Box::new("hello".to_string()).is_default());
    assert!(Box::new(0i32).is_default());
    assert!(!Box::new(1i32).is_default());
    assert!(Box::new(Vec::<u8>::new()).is_default());
    assert!(Box::new(None::<String>).is_default());
}
