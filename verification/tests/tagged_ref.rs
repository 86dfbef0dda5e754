use persistent::tagged_ref::InvalidTag;
use persistent::tagged_ref::TaggedRef;
use persistent::tagged_ref::TAG_MASK;

#[test]
fn tagged_ref_new() {
    TaggedRef::new(42, 0);
}

#[test]
fn tag() {
    assert_eq!(TaggedRef::new(42, 0).tag(), 0);
    assert_eq!(TaggedRef::new(42, 1).tag(), 1);
    assert_eq!(TaggedRef::new(42, 2).tag(), 2);
    assert_eq!(TaggedRef::new(42, 3).tag(), 3);
}

#[test]
fn as_ptr() {
    assert_eq!(*TaggedRef::new(42 as usize, 3).as_ref(), 42);
}

#[test]
fn a_clone_refers_to_the_same_value_with_the_same_tag() {
    let r = TaggedRef::new(vec![1, 2, 3], TAG_MASK);
    let s = r.clone();

    assert_eq!(s.tag(), 3);
    assert_eq!(s.as_ref(), r.as_ref());
    assert!(std::ptr::eq(s.as_ref(), r.as_ref()));
}

#[test]
fn a_tag_of_more_than_two_bits_is_refused() {
    assert_eq!(TaggedRef::try_new(42, 3).unwrap().tag(), 3);
    assert_eq!(TaggedRef::try_new(42, 4).unwrap_err(), InvalidTag { tag: 4 });
    assert_eq!(
        TaggedRef::try_new(42, usize::MAX).unwrap_err(),
        InvalidTag { tag: usize::MAX }
    );
}
