use parallel_labs::lab1::parallel::Error;

#[test]
fn input_errors_convert() {
    let e: Error = std::io::Error::new(std::io::ErrorKind::InvalidInput, "not a number").into();
    assert!(matches!(e, Error::Input(_)));
}

#[test]
fn system_errors_convert() {
    let bad = String::from_utf8(vec![0xff, 0xfe]).unwrap_err();
    let e = Error::from(bad);
    assert!(matches!(e, Error::System(_)));
    assert!(matches!(Error::Mpi, Error::Mpi));
}
