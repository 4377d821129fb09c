use upb::arena::Arena;
use upb::owned_data::OwnedData;

#[test]
fn test_byte_slice_pointer_roundtrip() {
    let mut arena = Arena::new();
    let original_data: &[u8] = b"Hello world";
    let span = arena.alloc_bytes(original_data);
    let owned_data = OwnedData::new(span, arena);
    assert_eq!(owned_data.as_ref(), b"Hello world");
}

#[test]
fn test_alloc_str_roundtrip() {
    let mut arena = Arena::new();
    let s: &str = "Hello";
    let span = arena.alloc_bytes(s.as_bytes());
    let owned_data = OwnedData::new(span, arena);
    assert_eq!(owned_data.as_ref(), s.as_bytes());
}

#[test]
fn test_sized_type_roundtrip() {
    let mut arena = Arena::new();
    let span = arena.alloc_bytes(&7u32.to_le_bytes());
    let owned_data = OwnedData::new(span, arena);
    let mut bytes = [0u8; 4];
    bytes.copy_from_slice(owned_data.as_ref());
    assert_eq!(u32::from_le_bytes(bytes), 7);
}

#[test]
fn arena_kept_alive_by_wrapper_alone() {
    let owned_data = {
        let mut arena = Arena::new();
        let data = vec![1u8, 2, 3];
        let span = arena.alloc_bytes(&data);
        drop(data);
        OwnedData::new(span, arena)
    };
    assert_eq!(owned_data.as_ref(), &[1u8, 2, 3]);
}

#[test]
fn decompose_returns_the_parts() {
    let mut arena = Arena::new();
    let span = arena.alloc_bytes(b"xyz");
    let owned_data = OwnedData::new(span, arena);
    assert_eq!(owned_data.data(), span);
    let (handle, arena_back) = owned_data.into_parts();
    assert_eq!(handle, span);
    assert_eq!(arena_back.read(handle), b"xyz");
}
