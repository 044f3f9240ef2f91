use vstd::prelude::*;

verus! {

/// The kind of one component of a relative path, as far as the upload rules
/// care: a plain name, or anything else (a root, `.`, `..`, a prefix).
#[derive(Debug, PartialEq, Eq, Clone, Copy)]
pub enum ComponentKind {
    Normal,
    Other,
}

/// Whether a path may name a file inside the upload directory: it is not
/// absolute, and each of its components is a plain name.
pub fn valid_components(is_absolute: bool, kinds: &Vec<ComponentKind>) -> (r: bool)
    ensures
        r == (!is_absolute && forall|i: int| 0 <= i < kinds@.len() ==> kinds@[i] == ComponentKind::Normal),
{
    if is_absolute {
        return false;
    }
    let mut i: usize = 0;
    while i < kinds.len()
        invariant
            i <= kinds@.len(),
            forall|j: int| 0 <= j < i ==> kinds@[j] == ComponentKind::Normal,
        decreases kinds@.len() - i,
    {
        match kinds[i] {
            ComponentKind::Normal => {},
            ComponentKind::Other => {
                return false;
            },
        }
        i = i + 1;
    }
    true
}

} // verus!
