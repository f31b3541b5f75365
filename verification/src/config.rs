//! The command grammar: which operation a raw argument list denotes.

use crate::path::DirPath;
use crate::text::str_eq;
use vstd::prelude::*;

verus! {

/// One operation against the store: print the merged view, print one
/// key's value, add a key/value pair, or remove a key.
#[derive(Debug, PartialEq, Eq)]
pub enum Operation {
    Print(Option<String>),
    Add((String, String)),
    Remove(String),
}

/// The value of an [`Operation`], over character sequences.
pub enum OpView {
    Print(Option<Seq<char>>),
    Add(Seq<char>, Seq<char>),
    Remove(Seq<char>),
}

impl View for Operation {
    type V = OpView;

    open spec fn view(&self) -> OpView {
        match self {
            Operation::Print(None) => OpView::Print(None),
            Operation::Print(Some(key)) => OpView::Print(Some(key@)),
            Operation::Add((key, value)) => OpView::Add(key@, value@),
            Operation::Remove(key) => OpView::Remove(key@),
        }
    }
}

/// A rejected argument list, with the number of arguments that came
/// after the operation word (or with the whole count, for a print).
#[derive(Debug, PartialEq, Eq)]
pub enum OperationError {
    AddArity(usize),
    RemoveArity(usize),
    PrintArity(usize),
}

/// The operation an argument list denotes: no arguments print the
/// merged view; `add` takes exactly a key and a value; `rm` takes
/// exactly a key; one other argument prints that key's value; anything
/// else is rejected with the offending count.
pub open spec fn parse_operation(a: Seq<Seq<char>>) -> Result<OpView, OperationError> {
    if a.len() == 0 {
        Ok(OpView::Print(None))
    } else if a[0] == "add"@ {
        if a.len() == 3 {
            Ok(OpView::Add(a[1], a[2]))
        } else {
            Err(OperationError::AddArity((a.len() - 1) as usize))
        }
    } else if a[0] == "rm"@ {
        if a.len() == 2 {
            Ok(OpView::Remove(a[1]))
        } else {
            Err(OperationError::RemoveArity((a.len() - 1) as usize))
        }
    } else if a.len() > 1 {
        Err(OperationError::PrintArity(a.len() as usize))
    } else {
        Ok(OpView::Print(Some(a[0])))
    }
}

impl Operation {
    /// Reads an operation from the raw argument list, rejecting a list
    /// whose argument count does not fit its operation word.
    pub fn try_from(value: Vec<String>) -> (r: Result<Operation, OperationError>)
        ensures
            match r {
                Ok(op) => parse_operation(value.deep_view()) == Ok::<OpView, OperationError>(op@),
                Err(e) => parse_operation(value.deep_view()) == Err::<OpView, OperationError>(e),
            },
    {
        let ghost a = value.deep_view();
        let length = value.len();
        proof {
            assert(a.len() == length);
        }
        if length == 0 {
            return Ok(Operation::Print(None));
        }
        proof {
            assert(a[0] == value@[0]@);
        }
        if str_eq(value[0].as_str(), "add") {
            if length != 3 {
                return Err(OperationError::AddArity(length - 1));
            }
            proof {
                assert(a[1] == value@[1]@);
                assert(a[2] == value@[2]@);
            }
            return Ok(Operation::Add((value[1].clone(), value[2].clone())));
        }
        if str_eq(value[0].as_str(), "rm") {
            if length != 2 {
                return Err(OperationError::RemoveArity(length - 1));
            }
            proof {
                assert(a[1] == value@[1]@);
            }
            return Ok(Operation::Remove(value[1].clone()));
        }
        if length > 1 {
            return Err(OperationError::PrintArity(length));
        }
        Ok(Operation::Print(Some(value[0].clone())))
    }
}

/// One invocation's inputs: the operation, the location of the
/// persisted store, and the working directory.
#[derive(Debug)]
pub struct Config {
    pub operation: Operation,
    pub config: String,
    pub pwd: DirPath,
}

} // verus!
