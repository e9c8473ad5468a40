//! The checks that a saved model's parameters must pass before use: the
//! format version, that there are parameters, and that each parameter has a
//! shape.
use vstd::prelude::*;
use crate::text::str_eq;
use crate::vocab::string_views;

verus! {

/// Why saved model parameters are refused.
#[derive(Debug, PartialEq, Eq, Structural)]
pub enum ModelCheckError {
    /// The format version is not 1.
    IncompatibleVersion,
    /// There is no parameter, or a parameter has no shape.
    InvalidModel,
}

/// Whether `name` is among `names`.
fn contains_name(names: &[String], name: &String) -> (r: bool)
    ensures
        r == string_views(names@).contains(name@),
{
    let ghost sv = string_views(names@);
    let mut i: usize = 0;
    while i < names.len()
        invariant
            i <= names@.len(),
            sv == string_views(names@),
            forall|j: int| 0 <= j < i ==> sv[j] != name@,
        decreases names.len() - i,
    {
        if str_eq(names[i].as_str(), name.as_str()) {
            assert(sv[i as int] == name@);
            return true;
        }
        i = i + 1;
    }
    proof {
        if sv.contains(name@) {
            let j = choose|j: int| 0 <= j < sv.len() && sv[j] == name@;
        }
    }
    false
}

/// Checks saved model parameters, given the format version, the names of
/// the parameters and the names that have a shape: the version must be 1,
/// there must be a parameter, and every parameter must have a shape.
pub fn check_model_parameters(version: u32, param_names: &[String], shape_names: &[String]) -> (r: Result<(), ModelCheckError>)
    ensures
        version != 1 ==> r == Err::<(), ModelCheckError>(ModelCheckError::IncompatibleVersion),
        version == 1 && param_names@.len() == 0 ==> r == Err::<(), ModelCheckError>(ModelCheckError::InvalidModel),
        version == 1 && param_names@.len() > 0 ==> (r is Ok <==> forall|i: int| 0 <= i < param_names@.len()
            ==> string_views(shape_names@).contains((#[trigger] param_names@[i])@)),
        r is Err ==> version != 1 || r == Err::<(), ModelCheckError>(ModelCheckError::InvalidModel),
{
    if version != 1 {
        return Err(ModelCheckError::IncompatibleVersion);
    }
    if param_names.len() == 0 {
        return Err(ModelCheckError::InvalidModel);
    }
    let mut i: usize = 0;
    while i < param_names.len()
        invariant
            version == 1,
            param_names@.len() > 0,
            i <= param_names@.len(),
            forall|j: int| 0 <= j < i ==> string_views(shape_names@).contains((#[trigger] param_names@[j])@),
        decreases param_names.len() - i,
    {
        if !contains_name(shape_names, &param_names[i]) {
            return Err(ModelCheckError::InvalidModel);
        }
        i = i + 1;
    }
    Ok(())
}

} // verus!
