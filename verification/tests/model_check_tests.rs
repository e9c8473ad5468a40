use wall_e1::model_check::{check_model_parameters, ModelCheckError};

fn names(xs: &[&str]) -> Vec<String> {
    xs.iter().map(|s| s.to_string()).collect()
}

#[test]
fn model_check_accepts_complete_parameters() {
    let params = names(&["embedding", "output"]);
    let shapes = names(&["output", "embedding", "extra"]);
    assert_eq!(check_model_parameters(1, &params, &shapes), Ok(()));
}

#[test]
fn model_check_rejects_other_versions() {
    let params = names(&["embedding"]);
    let shapes = names(&["embedding"]);
    assert_eq!(check_model_parameters(2, &params, &shapes), Err(ModelCheckError::IncompatibleVersion));
    assert_eq!(check_model_parameters(0, &[], &[]), Err(ModelCheckError::IncompatibleVersion));
}

#[test]
fn model_check_rejects_empty_parameters() {
    assert_eq!(check_model_parameters(1, &[], &names(&["embedding"])), Err(ModelCheckError::InvalidModel));
}

#[test]
fn model_check_rejects_missing_shape() {
    let params = names(&["embedding", "output"]);
    let shapes = names(&["embedding"]);
    assert_eq!(check_model_parameters(1, &params, &shapes), Err(ModelCheckError::InvalidModel));
}
