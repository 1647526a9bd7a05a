//! Output serialization behind a common interface: a format is one impl of
//! [`Serializer`], and whoever drives the build is agnostic to it.
use vstd::prelude::*;
use vstd::string::StringExecFns;

use crate::artifact::Output;
use crate::serialize::binary::BinarySerializer;
use crate::serialize::json::JsonSerializer;
use crate::serialize::quad::QuadtreeSerializer;
use crate::serialize::quad_tree::LeafRule;

pub mod qvarint;
pub mod stream;
pub mod order;
pub mod tree;
pub mod tree_laws;
pub mod tree_writer;
pub mod tree_reader;
pub mod leb;
pub mod sections;
pub mod zone_reader;
pub mod names;
pub mod ready;
pub mod text;
pub mod binary;
pub mod binary_reader;
pub mod json_text;
pub mod json;
pub mod json_value;
pub mod json_reader;
pub mod quad_local;
pub mod quad_tree;
pub mod quad_code;
pub mod quad;
pub mod quad_laws;

verus! {

/// What serializing comes to: the bytes, or the text of the error.
pub type Outcome = Result<Seq<u8>, Seq<char>>;

/// The result is the outcome.
pub open spec fn is_outcome(r: Result<Vec<u8>, String>, outcome: Outcome) -> bool {
    match outcome {
        Ok(bytes) => r matches Ok(v) && v@ == bytes,
        Err(text) => r matches Err(s) && s@ == text,
    }
}

/// Turns a built `Output` into a byte stream in some concrete format.
pub trait Serializer {
    /// The format can be asked to hold the artifact.
    spec fn takes(&self, out: Output) -> bool;

    /// What serializing the artifact comes to.
    spec fn outcome(&self, out: Output) -> Outcome;

    /// The name of the format.
    spec fn name(&self) -> Seq<char>;

    /// Whether the format stores the cost-model quadtree and packed geometry.
    spec fn stores_cost_tree(&self) -> bool;

    /// Serialize the artifact, or return a human-readable error.
    fn serialize(&self, out: &Output) -> (r: Result<Vec<u8>, String>)
        requires
            self.takes(*out),
        ensures
            is_outcome(r, self.outcome(*out)),
    ;

    /// Short format name, for logging.
    fn format_name(&self) -> (r: &'static str)
        ensures
            r@ == self.name(),
    ;

    /// Whether this serializer produces a complete artifact (vs. a stub).
    fn is_complete(&self) -> (r: bool)
        ensures
            r,
    {
        true
    }

    /// Whether this format needs the cost-model quadtree (subdivide/annotate) and
    /// packed geometry.  Formats that build their own tree return false so the
    /// driver can skip that work.
    fn uses_cost_tree(&self) -> (r: bool)
        ensures
            r == self.stores_cost_tree(),
    ;
}

/// A serializer of one of the known formats.
pub enum AnySerializer {
    Json(JsonSerializer),
    Binary(BinarySerializer),
    Quad(QuadtreeSerializer),
}

impl Serializer for AnySerializer {
    open spec fn takes(&self, out: Output) -> bool {
        match self {
            AnySerializer::Json(s) => s.takes(out),
            AnySerializer::Binary(s) => s.takes(out),
            AnySerializer::Quad(s) => s.takes(out),
        }
    }

    open spec fn outcome(&self, out: Output) -> Outcome {
        match self {
            AnySerializer::Json(s) => s.outcome(out),
            AnySerializer::Binary(s) => s.outcome(out),
            AnySerializer::Quad(s) => s.outcome(out),
        }
    }

    open spec fn name(&self) -> Seq<char> {
        match self {
            AnySerializer::Json(s) => s.name(),
            AnySerializer::Binary(s) => s.name(),
            AnySerializer::Quad(s) => s.name(),
        }
    }

    open spec fn stores_cost_tree(&self) -> bool {
        match self {
            AnySerializer::Json(s) => s.stores_cost_tree(),
            AnySerializer::Binary(s) => s.stores_cost_tree(),
            AnySerializer::Quad(s) => s.stores_cost_tree(),
        }
    }

    fn serialize(&self, out: &Output) -> (r: Result<Vec<u8>, String>) {
        match self {
            AnySerializer::Json(s) => s.serialize(out),
            AnySerializer::Binary(s) => s.serialize(out),
            AnySerializer::Quad(s) => s.serialize(out),
        }
    }

    fn format_name(&self) -> (r: &'static str) {
        match self {
            AnySerializer::Json(s) => s.format_name(),
            AnySerializer::Binary(s) => s.format_name(),
            AnySerializer::Quad(s) => s.format_name(),
        }
    }

    fn uses_cost_tree(&self) -> (r: bool) {
        match self {
            AnySerializer::Json(s) => s.uses_cost_tree(),
            AnySerializer::Binary(s) => s.uses_cost_tree(),
            AnySerializer::Quad(s) => s.uses_cost_tree(),
        }
    }
}

/// The error for a format that there is none of.
pub open spec fn unknown_text(format: Seq<char>) -> Seq<char> {
    "unknown output format '"@ + format + "' (expected 'json', 'binary', or 'quad')"@
}

/// Select a serializer by name.  `rule` is the `quad` format's leaf-size rule;
/// the other formats ignore it.
pub fn for_format(format: &str, rule: LeafRule) -> (r: Result<AnySerializer, String>)
    ensures
        match r {
            Ok(AnySerializer::Json(_)) => format@ == "json"@,
            Ok(AnySerializer::Binary(_)) => format@ == "binary"@ || format@ == "bin"@,
            Ok(AnySerializer::Quad(s)) => format@ == "quad"@ && s.rule == rule,
            Err(e) => format@ != "json"@ && format@ != "binary"@ && format@ != "bin"@ && format@
                != "quad"@ && e@ == unknown_text(format@),
        },
{
    let name = format.to_owned();
    proof {
        reveal_strlit("json");
        reveal_strlit("binary");
        reveal_strlit("bin");
        reveal_strlit("quad");
    }
    if name == "json".to_owned() {
        Ok(AnySerializer::Json(JsonSerializer))
    } else if name == "binary".to_owned() || name == "bin".to_owned() {
        Ok(AnySerializer::Binary(BinarySerializer))
    } else if name == "quad".to_owned() {
        Ok(AnySerializer::Quad(QuadtreeSerializer { rule }))
    } else {
        let mut s = "unknown output format '".to_owned();
        s.append(format);
        s.append("' (expected 'json', 'binary', or 'quad')");
        Err(s)
    }
}

} // verus!
