use rqhull::options::qhull_options;
use rqhull::{QhullMode, QhullOption};

#[test]
fn option_flags() {
    assert_eq!(QhullOption::ScaleLast.as_string(), "Qbb");
    assert_eq!(QhullOption::KeepCoplanar.as_string(), "Qc");
    assert_eq!(QhullOption::AddAPointAtInfinity.as_string(), "Qz");
    assert_eq!(QhullOption::ExactPreMerges.as_string(), "Qx");
}

#[test]
fn option_flags_are_distinct() {
    let all = [
        QhullOption::ScaleLast,
        QhullOption::KeepCoplanar,
        QhullOption::AddAPointAtInfinity,
        QhullOption::ExactPreMerges,
    ];
    for (i, a) in all.iter().enumerate() {
        for (j, b) in all.iter().enumerate() {
            assert_eq!(i == j, a.as_string() == b.as_string());
        }
    }
}

#[test]
fn command_line_without_options_ends_in_a_space() {
    assert_eq!(qhull_options(QhullMode::Voronoi, vec![]), "qhull v ");
}

#[test]
fn command_line_with_one_option() {
    assert_eq!(qhull_options(QhullMode::Voronoi, vec![QhullOption::KeepCoplanar]), "qhull v Qc");
}

#[test]
fn command_line_joins_options_with_spaces() {
    let line = qhull_options(
        QhullMode::Voronoi,
        vec![QhullOption::ScaleLast, QhullOption::AddAPointAtInfinity, QhullOption::ExactPreMerges],
    );
    assert_eq!(line, "qhull v Qbb Qz Qx");
}

#[test]
fn command_line_keeps_repeated_options() {
    let line = qhull_options(QhullMode::Voronoi, vec![QhullOption::ScaleLast, QhullOption::ScaleLast]);
    assert_eq!(line, "qhull v Qbb Qbb");
}
