//! Errors from qhull, and the checks made before qhull is called.
use vstd::prelude::*;

verus! {

/// A qhull function that reported failure, and the code it returned.
#[derive(Debug)]
pub struct QhullError {
    pub external_fuction: String,
    pub error_code: i32,
}

impl QhullError {
    /// The error that `ef` reported with code `ec`.
    pub fn new(ef: &str, ec: i32) -> (e: QhullError)
        ensures
            e.external_fuction@ == ef@,
            e.error_code == ec,
    {
        QhullError { external_fuction: ef.to_owned(), error_code: ec }
    }
}

/// What `qh_new_qhull`'s exit code means: 0 is success, any other code is
/// an error reported under the function's name.
pub fn new_qhull_result(exit_code: i32) -> (r: Result<(), QhullError>)
    ensures
        r is Ok <==> exit_code == 0,
        r matches Err(e) ==> e.external_fuction@ == "qh_new_qhull"@ && e.error_code == exit_code,
{
    if exit_code != 0 {
        Err(QhullError::new("qh_new_qhull", exit_code))
    } else {
        Ok(())
    }
}

/// Why a point array cannot be handed to qhull.
#[derive(Clone, Copy, Debug, PartialEq, Eq)]
pub enum InvalidPoints {
    /// The array has no rows.
    NoPoints,
    /// The points have fewer than two coordinates (the count is given).
    TooFewDimensions(usize),
}

/// Checks the shape of a point array, `n_points` rows of `dimension`
/// coordinates: there must be a point, and points must be at least 2D.
/// The emptiness check comes first.
pub fn validate_points(n_points: usize, dimension: usize) -> (r: Result<(), InvalidPoints>)
    ensures
        n_points == 0 ==> r == Err::<(), InvalidPoints>(InvalidPoints::NoPoints),
        n_points > 0 && dimension < 2 ==> r == Err::<(), InvalidPoints>(
            InvalidPoints::TooFewDimensions(dimension),
        ),
        n_points > 0 && dimension >= 2 ==> r is Ok,
{
    if n_points == 0 {
        return Err(InvalidPoints::NoPoints);
    }
    if dimension < 2 {
        return Err(InvalidPoints::TooFewDimensions(dimension));
    }
    Ok(())
}

} // verus!
