use pot2dict::line::{extract_password, trim_end};

#[test]
fn password_is_behind_the_last_colon() {
    assert_eq!(extract_password(b"hash:salt:secret", false), Some(&b"secret"[..]));
    assert_eq!(extract_password(b"hash:secret", false), Some(&b"secret"[..]));
}

#[test]
fn line_without_colon_is_the_password() {
    assert_eq!(extract_password(b"letmein", false), Some(&b"letmein"[..]));
    assert_eq!(extract_password(b"letmein", true), Some(&b"letmein"[..]));
}

#[test]
fn empty_password_is_skipped_unless_kept() {
    assert_eq!(extract_password(b"hash:", false), None);
    assert_eq!(extract_password(b"hash:", true), Some(&b"hash:"[..]));
    assert_eq!(extract_password(b":", true), Some(&b":"[..]));
    assert_eq!(extract_password(b"a::", false), None);
}

#[test]
fn empty_line_has_no_password() {
    assert_eq!(extract_password(b"", false), None);
    assert_eq!(extract_password(b"\r\n", true), None);
    assert_eq!(extract_password(b"\r\r", false), None);
}

#[test]
fn line_ends_are_trimmed() {
    assert_eq!(trim_end(b"abc\r\n"), &b"abc"[..]);
    assert_eq!(trim_end(b"a\rb\r\r\n\n"), &b"a\rb"[..]);
    assert_eq!(trim_end(b"\n\r"), &b""[..]);
    assert_eq!(trim_end(b" x "), &b" x "[..]);
    assert_eq!(extract_password(b"hash:pw\r", false), Some(&b"pw"[..]));
}
