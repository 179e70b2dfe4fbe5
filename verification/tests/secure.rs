//! The secure login.

use b2fmsg::secure::login_response;

/// Vectors from Pat's test suite (fbb/secure_test.go).
#[test]
fn matches_reference() {
    assert_eq!(login_response("23753528", "FOOBAR"), "72768415");
    assert_eq!(login_response("23753528", "FooBar"), "95074758");
}

#[test]
fn always_eight_digits() {
    for challenge in ["0", "1", "99999999", "12345678"] {
        let r = login_response(challenge, "x");
        assert_eq!(r.len(), 8);
        assert!(r.bytes().all(|b| b.is_ascii_digit()));
    }
}
