use ppm::tools::{split_args, splitn_args};

#[test]
fn test_split_args() {
    let s = "abc:def(%cmd 1:2:3%):\\(%:\\:heya".to_string();
    let ctrl = vec![
        "abc".to_string(),
        "def(%cmd 1:2:3%)".to_string(),
        "\\(%".to_string(),
        ":heya".to_string(),
    ];
    assert_eq!(split_args(s), ctrl);
}

#[test]
fn test_splitn_args() {
    let s = "abc:def(%cmd 1:2:3%):\\(%:\\:heya".to_string();
    let ctrl = vec![
        "abc".to_string(),
        "def(%cmd 1:2:3%)".to_string(),
        "\\(%:\\:heya".to_string(),
    ];
    assert_eq!(splitn_args(3, s), ctrl);
}
