use pack_unpack::errors::UnpackError;

fn boom() -> std::io::Error {
    std::io::Error::new(std::io::ErrorKind::Other, "boom")
}

#[test]
fn unknown_error_message_and_report() {
    let e = UnpackError::Unknown;
    assert_eq!(e.message(), "unknown error");
    assert_eq!(e.report(), "unknown error\n");
}

#[test]
fn io_error_message_and_report() {
    let e = UnpackError::IO(boom());
    assert_eq!(e.message(), "generic I/O error");
    assert_eq!(e.report(), "generic I/O error\n\nCaused by:\n\tboom\n");
}

#[test]
fn file_not_found_names_the_path() {
    let e = UnpackError::FileNotFound("versions/trunk.txt".to_string(), boom());
    assert_eq!(e.message(), "could not find versions/trunk.txt");
    assert_eq!(
        e.report(),
        "could not find versions/trunk.txt\n\nCaused by:\n\tboom\n"
    );
}
