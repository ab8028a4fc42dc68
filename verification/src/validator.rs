//! Validation-error records consumed by the diagnostic layer.
use vstd::prelude::*;
use crate::json::{Json, Value};
use crate::strings::{dec_nat, dec_usize};

verus! {

/// One segment of an instance or schema path.
#[derive(Debug, Clone)]
pub enum PathSeg {
    Key(String),
    Index(usize),
}

/// A validation error found in a devicetree node.
#[derive(Debug, Clone)]
pub struct DtError {
    pub instance_path: Vec<PathSeg>,
    pub schema_path: Vec<PathSeg>,
    pub message: String,
    pub schema_file: String,
    pub instance_is_disabled_node: bool,
    pub has_suppressible_disabled_context: bool,
}

/// How a segment is shown in an error line.
pub open spec fn seg_text(p: PathSeg) -> Seq<char> {
    match p {
        PathSeg::Key(s) => s@,
        PathSeg::Index(i) => dec_nat(i as nat),
    }
}

/// A segment as a JSON value: a key is a string, an index a number.
pub open spec fn seg_json(p: PathSeg) -> Json {
    match p {
        PathSeg::Key(s) => Json::Str(s@),
        PathSeg::Index(i) => Json::Int(i as int),
    }
}

impl PathSeg {
    pub fn to_display(&self) -> (r: String)
        ensures
            r@ == seg_text(*self),
    {
        match self {
            PathSeg::Key(s) => s.clone(),
            PathSeg::Index(i) => dec_usize(*i),
        }
    }

    pub fn as_json(&self) -> (r: Value)
        ensures
            r@ == seg_json(*self),
    {
        match self {
            PathSeg::Key(s) => Value::Str(s.clone()),
            PathSeg::Index(i) => Value::Int(*i as i128),
        }
    }
}

} // verus!
