use rqhull::error::{new_qhull_result, validate_points};
use rqhull::{InvalidPoints, QhullError};

#[test]
fn error_keeps_function_and_code() {
    let e = QhullError::new("qh_new_qhull", 6);
    assert_eq!(e.external_fuction, "qh_new_qhull");
    assert_eq!(e.error_code, 6);
}

#[test]
fn exit_code_zero_is_success() {
    assert!(new_qhull_result(0).is_ok());
}

#[test]
fn nonzero_exit_code_is_an_error() {
    let e = new_qhull_result(2).unwrap_err();
    assert_eq!(e.external_fuction, "qh_new_qhull");
    assert_eq!(e.error_code, 2);
    let e = new_qhull_result(-1).unwrap_err();
    assert_eq!(e.error_code, -1);
}

#[test]
fn no_points_is_refused() {
    assert_eq!(validate_points(0, 2), Err(InvalidPoints::NoPoints));
    assert_eq!(validate_points(0, 1), Err(InvalidPoints::NoPoints));
}

#[test]
fn one_dimensional_points_are_refused() {
    assert_eq!(validate_points(9, 1), Err(InvalidPoints::TooFewDimensions(1)));
    assert_eq!(validate_points(3, 0), Err(InvalidPoints::TooFewDimensions(0)));
}

#[test]
fn planar_and_higher_points_are_accepted() {
    assert_eq!(validate_points(9, 2), Ok(()));
    assert_eq!(validate_points(1, 3), Ok(()));
}
