use nvim_oxi::error::{MarshalError, Tag};
use nvim_oxi::lua::{Poppable, Pushable, Slot, Stack};
use nvim_oxi::string::NvimString;

#[test]
fn round_trip_bool() {
    let mut stack = Stack::new();
    assert_eq!(true.push(&mut stack), Ok(1));
    assert_eq!(stack.depth(), 1);
    assert_eq!(bool::pop(&mut stack), Ok(true));
    assert_eq!(stack.depth(), 0);

    assert_eq!(false.push(&mut stack), Ok(1));
    assert_eq!(bool::pop(&mut stack), Ok(false));
}

#[test]
fn round_trip_int() {
    let mut stack = Stack::new();
    assert_eq!((-42i64).push(&mut stack), Ok(1));
    assert_eq!(i64::pop(&mut stack), Ok(-42));

    assert_eq!(i64::MAX.push(&mut stack), Ok(1));
    assert_eq!(i64::pop(&mut stack), Ok(i64::MAX));
}

#[test]
fn round_trip_buffer() {
    let mut stack = Stack::new();

    // empty string
    let empty = NvimString::new();
    assert_eq!(empty.push(&mut stack), Ok(1));
    let back = NvimString::pop(&mut stack).unwrap();
    assert!(back.is_empty());

    // ASCII string
    let ascii = NvimString::from("plain ascii");
    assert_eq!(ascii.push(&mut stack), Ok(1));
    assert_eq!(NvimString::pop(&mut stack).unwrap(), "plain ascii");

    // embedded zero byte
    let nul = NvimString::from_bytes(vec![0x66, 0x6f, 0x6f, 0x00, 0x62, 0x61, 0x72]);
    assert_eq!(nul.push(&mut stack), Ok(1));
    let back = NvimString::pop(&mut stack).unwrap();
    assert_eq!(back.as_bytes(), &[0x66, 0x6f, 0x6f, 0x00, 0x62, 0x61, 0x72][..]);

    // raw high bytes that are not valid text
    let raw = NvimString::from_bytes(vec![0xff, 0x80, 0xfe]);
    assert_eq!(raw.push(&mut stack), Ok(1));
    let back = NvimString::pop(&mut stack).unwrap();
    assert_eq!(back.as_bytes(), &[0xff, 0x80, 0xfe][..]);

    assert_eq!(stack.depth(), 0);
}

#[test]
fn round_trip_text() {
    let mut stack = Stack::new();

    assert_eq!(String::new().push(&mut stack), Ok(1));
    assert_eq!(<String as Poppable>::pop(&mut stack), Ok(String::new()));

    assert_eq!(String::from("héllo wörld").push(&mut stack), Ok(1));
    assert_eq!(<String as Poppable>::pop(&mut stack), Ok(String::from("héllo wörld")));
}

#[test]
fn push_text_rejects_embedded_nul() {
    let mut stack = Stack::new();
    let r = String::from("ba\u{0}d").push(&mut stack);
    assert_eq!(r, Err(MarshalError::InvalidEncoding { offset: 2 }));
    assert_eq!(stack.depth(), 0);
}

#[test]
fn pop_text_rejects_invalid_bytes() {
    let mut stack = Stack::new();
    stack.push_slot(Slot::Str(vec![0x61, 0x80]));
    let r = <String as Poppable>::pop(&mut stack);
    assert_eq!(r, Err(MarshalError::Decode { offset: 1 }));
    // the inspected slot was removed, nothing else
    assert_eq!(stack.depth(), 0);
}

#[test]
fn pop_wrong_tag() {
    let mut stack = Stack::new();
    stack.push_slot(Slot::Nil);
    assert_eq!(7i64.push(&mut stack), Ok(1));

    let r = bool::pop(&mut stack);
    assert_eq!(
        r,
        Err(MarshalError::TypeMismatch { expected: Tag::Bool, found: Some(Tag::Int) })
    );
    // exactly the inspected slot was removed; the slot below is intact
    assert_eq!(stack.depth(), 1);
    let r = bool::pop(&mut stack);
    assert_eq!(
        r,
        Err(MarshalError::TypeMismatch { expected: Tag::Bool, found: Some(Tag::Nil) })
    );
    assert_eq!(stack.depth(), 0);
}

#[test]
fn pop_empty_stack() {
    let mut stack = Stack::new();
    let r = i64::pop(&mut stack);
    assert_eq!(r, Err(MarshalError::TypeMismatch { expected: Tag::Int, found: None }));
    assert_eq!(stack.depth(), 0);
}

#[test]
fn round_trip_option() {
    let mut stack = Stack::new();

    let none: Option<i64> = None;
    assert_eq!(none.push(&mut stack), Ok(1));
    assert_eq!(Option::<i64>::pop(&mut stack), Ok(None));

    assert_eq!(Some(9i64).push(&mut stack), Ok(1));
    assert_eq!(Option::<i64>::pop(&mut stack), Ok(Some(9)));
}

#[test]
fn sequence_push_counts_slots() {
    let mut stack = Stack::new();
    let items = vec![1i64, 2, 3];
    assert_eq!(items.push(&mut stack), Ok(3));
    assert_eq!(stack.depth(), 3);
    // pushed in order: the last element ends on top
    assert_eq!(i64::pop(&mut stack), Ok(3));
    assert_eq!(i64::pop(&mut stack), Ok(2));
    assert_eq!(i64::pop(&mut stack), Ok(1));
}

#[test]
fn failed_sequence_push_restores_depth() {
    let mut stack = Stack::new();
    assert_eq!(true.push(&mut stack), Ok(1));
    let depth_before = stack.depth();

    // the second element cannot be encoded: the whole push unwinds
    let items = vec![String::from("fine"), String::from("b\u{0}d"), String::from("never")];
    let r = items.push(&mut stack);
    assert_eq!(r, Err(MarshalError::InvalidEncoding { offset: 1 }));
    assert_eq!(stack.depth(), depth_before);

    // the slot pushed before the failed composite is untouched
    assert_eq!(bool::pop(&mut stack), Ok(true));
}

#[test]
fn error_bridging() {
    let err = MarshalError::TypeMismatch { expected: Tag::Str, found: Some(Tag::Nil) };
    assert_eq!(err.kind_tag(), 2);
    assert_eq!(err.message(), "unexpected type on the stack");

    let obj = err.to_error_object();
    assert_eq!(obj.kind, 2);
    assert_eq!(obj.message.as_bytes(), "unexpected type on the stack".as_bytes());

    // the interpreter-visible form occupies two slots: kind, then message
    let mut stack = Stack::new();
    assert_eq!(obj.push(&mut stack), Ok(2));
    assert_eq!(stack.depth(), 2);
    assert_eq!(
        NvimString::pop(&mut stack).unwrap().as_bytes(),
        "unexpected type on the stack".as_bytes()
    );
    assert_eq!(i64::pop(&mut stack), Ok(2));
}

#[test]
fn error_kinds_and_messages() {
    let e1 = MarshalError::InvalidEncoding { offset: 0 };
    let e2 = MarshalError::TypeMismatch { expected: Tag::Int, found: None };
    let e3 = MarshalError::Decode { offset: 4 };
    assert_eq!(e1.kind_tag(), 1);
    assert_eq!(e2.kind_tag(), 2);
    assert_eq!(e3.kind_tag(), 3);
    assert_eq!(e1.message(), "invalid encoding in string");
    assert_eq!(e3.message(), "failed to decode stack value");
}
