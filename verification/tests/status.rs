use reqwless::status::{Status, StatusCode};

#[test]
fn status_equality() {
    // StatusCode and Status values can be compared.
    assert_eq!(StatusCode(200), Status::OK);
    assert_eq!(Status::OK, StatusCode(200));
    assert_eq!(StatusCode(404), Status::NotFound);
    assert_eq!(Status::NotFound, StatusCode(404));
    assert_ne!(Status::OK, StatusCode(404));

    // Status::Unknown does not compare as equal to any StatusCode value.
    assert_ne!(Status::Unknown, StatusCode(0));
    assert_ne!(StatusCode(0), Status::Unknown);

    // StatusCode supports comparison of arbitrary values.
    assert_eq!(StatusCode(0), StatusCode(0));
    assert_eq!(StatusCode(987), StatusCode(987));
    assert_ne!(StatusCode(123), StatusCode(321));

    let status: Status = StatusCode(200).into();
    assert_eq!(Status::OK, status);
}

#[test]
fn status_try_from() {
    let s: Status = 200.into();
    assert_eq!(Status::OK, s);
    let s: Status = StatusCode(500).into();
    assert_eq!(Status::InternalServerError, s);
    let s: StatusCode = Status::NotModified.try_into().unwrap();
    assert_eq!(s, StatusCode(304));

    // Unknown status code values can be converted into Status::Unknown.
    let im_a_teapot: Status = StatusCode(418).into();
    assert_eq!(Status::Unknown, im_a_teapot);
    let im_a_teapot: Status = 418.into();
    assert_eq!(Status::Unknown, im_a_teapot);

    // Converting Status::Unknown back to a StatusCode will fail.
    <Status as TryInto<StatusCode>>::try_into(Status::Unknown)
        .expect_err("Status::Unknown conversion should fail");
    <Status as TryInto<StatusCode>>::try_into(StatusCode(418).into())
        .expect_err("Status::Unknown conversion should fail");
}

#[test]
fn status_classes_cover_their_ranges() {
    assert!(StatusCode(100).is_informational());
    assert!(StatusCode(199).is_informational());
    assert!(!StatusCode(200).is_informational());
    assert!(StatusCode(200).is_successful());
    assert!(StatusCode(299).is_successful());
    assert!(StatusCode(301).is_redirection());
    assert!(StatusCode(404).is_client_error());
    assert!(StatusCode(500).is_server_error());
    assert!(!StatusCode(600).is_server_error());

    assert!(Status::OK.is_successful());
    assert!(Status::MovedPermanently.is_redirection());
    assert!(Status::NotFound.is_client_error());
    assert!(Status::BadGateway.is_server_error());
    assert!(!Status::Unknown.is_informational());
    assert!(!Status::Unknown.is_successful());
    assert!(!Status::Unknown.is_redirection());
    assert!(!Status::Unknown.is_client_error());
    assert!(!Status::Unknown.is_server_error());
}
