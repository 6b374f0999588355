use cracken::stackbuf::StackBuf;
use cracken::BUFFER_SIZE;

#[test]
fn test_stack_buf() {
    let buf = StackBuf::new();
    assert!(!buf.is_empty());

    let default_buf = StackBuf::default();
    assert_eq!(default_buf.pos(), 0);
}

#[test]
fn stack_buf_write_and_clear() {
    let mut buf = StackBuf::new();
    assert_eq!(buf.len(), BUFFER_SIZE);
    buf.write(b"abc\n");
    buf.write(b"de\n");
    assert_eq!(buf.getdata(), b"abc\nde\n");
    assert_eq!(buf.pos(), 7);
    buf.clear();
    assert_eq!(buf.pos(), 0);
    assert_eq!(buf.getdata(), b"");
}
