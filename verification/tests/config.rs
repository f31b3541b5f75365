use projector::config::{Operation, OperationError};

fn args(parts: &[&str]) -> Vec<String> {
    parts.iter().map(|s| s.to_string()).collect()
}

#[test]
fn no_arguments_print_everything() {
    assert_eq!(Operation::try_from(Vec::new()), Ok(Operation::Print(None)));
}

#[test]
fn one_argument_prints_its_key() {
    assert_eq!(
        Operation::try_from(args(&["foo"])),
        Ok(Operation::Print(Some("foo".to_string())))
    );
}

#[test]
fn too_many_print_arguments_are_rejected() {
    assert_eq!(
        Operation::try_from(args(&["foo", "bar"])),
        Err(OperationError::PrintArity(2))
    );
}

#[test]
fn add_takes_key_and_value() {
    assert_eq!(
        Operation::try_from(args(&["add", "foo", "bar"])),
        Ok(Operation::Add(("foo".to_string(), "bar".to_string())))
    );
}

#[test]
fn add_arity_is_checked() {
    assert_eq!(
        Operation::try_from(args(&["add", "foo"])),
        Err(OperationError::AddArity(1))
    );
    assert_eq!(
        Operation::try_from(args(&["add", "a", "b", "c"])),
        Err(OperationError::AddArity(3))
    );
}

#[test]
fn rm_takes_one_key() {
    assert_eq!(
        Operation::try_from(args(&["rm", "foo"])),
        Ok(Operation::Remove("foo".to_string()))
    );
}

#[test]
fn rm_arity_is_checked() {
    assert_eq!(
        Operation::try_from(args(&["rm"])),
        Err(OperationError::RemoveArity(0))
    );
    assert_eq!(
        Operation::try_from(args(&["rm", "a", "b"])),
        Err(OperationError::RemoveArity(2))
    );
}
