//! The code of the rough quadtree.
//!
//! ```text
//!   node := len:q
//!           len == 0 -> ocean leaf: no timezone; nothing follows
//!           len == 1 -> leaf:       tzid:q follows
//!           len >= 2 -> internal:   `len` bytes = the 4 child nodes (quadrants 0..3)
//! ```
//!
//! A reader skips a quadrant by its length alone.
use vstd::prelude::*;
use vstd::string::StringExecFns;

use crate::geom::{Aabb, Pt};
use crate::lookup::{child_cell, quadrant_for_point, quadrant_of, split_cell};
use crate::quant::ROOT_CELL;
use crate::serialize::quad_tree::{is_within, tree_value, QNode};
use crate::serialize::qvarint::{
    get_q, is_q, law_q_round_trip, q_at_least, q_bytes, read_q, write_q, Q_MAX,
};
use crate::serialize::stream::{holds_at, lemma_holds_two};
use crate::serialize::text::{decimal, decimal_text};
use crate::serialize::tree::{framed_body, zeros};
use crate::serialize::tree_writer::push_body;

verus! {

/// The four quadrants in a row.
pub open spec fn payload(a: Seq<u8>, b: Seq<u8>, c: Seq<u8>, d: Seq<u8>) -> Seq<u8> {
    a + (b + (c + d))
}

/// The code of a tree.
pub open spec fn quad_bytes(node: QNode, ocean: u64) -> Seq<u8>
    decreases node,
{
    match node {
        QNode::Leaf(t) => if t == ocean {
            q_bytes(0)
        } else {
            q_bytes(1) + q_bytes(t as int)
        },
        QNode::Internal(a, b, c, d) => framed_body(
            payload(
                quad_bytes(*a, ocean),
                quad_bytes(*b, ocean),
                quad_bytes(*c, ocean),
                quad_bytes(*d, ocean),
            ),
        ),
    }
}

/// The first payload, in the order in which they are completed, that is too
/// long for its length to be coded.
pub open spec fn too_long(node: QNode, ocean: u64) -> Option<int>
    decreases node,
{
    match node {
        QNode::Leaf(_) => None,
        QNode::Internal(a, b, c, d) => match too_long(*a, ocean) {
            Some(n) => Some(n),
            None => match too_long(*b, ocean) {
                Some(n) => Some(n),
                None => match too_long(*c, ocean) {
                    Some(n) => Some(n),
                    None => match too_long(*d, ocean) {
                        Some(n) => Some(n),
                        None => {
                            let len = payload(
                                quad_bytes(*a, ocean),
                                quad_bytes(*b, ocean),
                                quad_bytes(*c, ocean),
                                quad_bytes(*d, ocean),
                            ).len() as int;
                            if q_at_least(len) > Q_MAX {
                                Some(len)
                            } else {
                                None
                            }
                        },
                    },
                },
            },
        },
    }
}

/// Every timezone of the tree has an exact code.
pub open spec fn leaves_exact(node: QNode, ocean: u64) -> bool
    decreases node,
{
    match node {
        QNode::Leaf(t) => t == ocean || is_q(t as int),
        QNode::Internal(a, b, c, d) => leaves_exact(*a, ocean) && leaves_exact(*b, ocean)
            && leaves_exact(*c, ocean) && leaves_exact(*d, ocean),
    }
}

/// The error for a payload that is too long.
pub open spec fn too_long_text(n: int) -> Seq<char> {
    "quad: node payload "@ + decimal(n) + " bytes exceeds the format's "@ + decimal(Q_MAX as int)
        + "-byte limit; use a larger --leaf-km"@
}

fn too_long_error(n: usize) -> (r: String)
    ensures
        r@ == too_long_text(n as int),
{
    let mut s = "quad: node payload ".to_owned();
    s.append(decimal_text(n as u64).as_str());
    s.append(" bytes exceeds the format's ");
    s.append(decimal_text(Q_MAX).as_str());
    s.append("-byte limit; use a larger --leaf-km");
    s
}

/// Write a tree.  Fails where a payload is too long; nothing is written then.
pub fn encode_node(node: &QNode, buf: &mut Vec<u8>, ocean: u64) -> (r: Result<(), String>)
    requires
        leaves_exact(*node, ocean),
    ensures
        match too_long(*node, ocean) {
            None => r is Ok && final(buf)@ == old(buf)@ + quad_bytes(*node, ocean),
            Some(n) => r matches Err(s) && s@ == too_long_text(n) && final(buf)@ == old(buf)@,
        },
    decreases node,
{
    match node {
        QNode::Leaf(t) => {
            let ghost start = buf@;
            if *t == ocean {
                write_q(buf, 0);
            } else {
                write_q(buf, 1);
                write_q(buf, *t);
                proof {
                    assert(buf@ =~= start + (q_bytes(1) + q_bytes(*t as int)));
                }
            }
        },
        QNode::Internal(a, b, c, d) => {
            let mut body: Vec<u8> = Vec::new();
            if let Err(e) = encode_node(&**a, &mut body, ocean) {
                return Err(e);
            }
            if let Err(e) = encode_node(&**b, &mut body, ocean) {
                return Err(e);
            }
            if let Err(e) = encode_node(&**c, &mut body, ocean) {
                return Err(e);
            }
            if let Err(e) = encode_node(&**d, &mut body, ocean) {
                return Err(e);
            }
            proof {
                assert(body@ =~= payload(
                    quad_bytes(**a, ocean),
                    quad_bytes(**b, ocean),
                    quad_bytes(**c, ocean),
                    quad_bytes(**d, ocean),
                ));
            }
            if body.len() as u64 > Q_MAX {
                return Err(too_long_error(body.len()));
            }
            push_body(buf, body.as_slice());
        },
    }
    Ok(())
}

// --- reading ---

/// Where the node at a position ends.
pub open spec fn node_end(bytes: Seq<u8>, pos: int) -> Option<int> {
    match get_q(bytes, pos) {
        None => None,
        Some((len, p)) => if len == 0 {
            Some(p)
        } else if len == 1 {
            match get_q(bytes, p) {
                None => None,
                Some((_, e)) => Some(e),
            }
        } else if p + len > bytes.len() {
            None
        } else {
            Some(p + len)
        },
    }
}

/// Where the first `n` nodes from a position on end.
pub open spec fn nodes_end(bytes: Seq<u8>, pos: int, n: int) -> Option<int>
    decreases n,
{
    if n <= 0 {
        Some(pos)
    } else {
        match nodes_end(bytes, pos, n - 1) {
            None => None,
            Some(p) => node_end(bytes, p),
        }
    }
}

/// The timezone that the tree at a position gives for a point of the cell.
pub open spec fn coded_value(
    bytes: Seq<u8>,
    pos: int,
    cell: Aabb,
    p: Pt,
    ocean: u64,
) -> Option<u64>
    decreases bytes.len() - pos,
{
    match get_q(bytes, pos) {
        None => None,
        Some((len, at)) => if len == 0 {
            Some(ocean)
        } else if len == 1 {
            match get_q(bytes, at) {
                None => None,
                Some((t, _)) => Some(t as u64),
            }
        } else {
            let q = quadrant_of(cell, p);
            match nodes_end(bytes, at, q) {
                None => None,
                Some(next) => if next <= pos || next > bytes.len() {
                    None
                } else {
                    coded_value(bytes, next, child_cell(cell, q), p, ocean)
                },
            }
        },
    }
}

/// Step over the node at a position.
pub fn skip_node(bytes: &[u8], pos: &mut usize)
    requires
        node_end(bytes@, *old(pos) as int) is Some,
    ensures
        node_end(bytes@, *old(pos) as int) == Some(*final(pos) as int),
        *old(pos) < *final(pos) <= bytes@.len(),
{
    let total = bytes.len();
    let len = read_q(bytes, pos);
    if len == 0 {
    } else if len == 1 {
        read_q(bytes, pos);
    } else {
        proof {
            assert(*pos + len <= total);
        }
        *pos = *pos + len as usize;
    }
}

proof fn lemma_nodes_end(bytes: Seq<u8>, pos: int, n: int, k: int)
    requires
        0 <= k <= n,
        nodes_end(bytes, pos, n) is Some,
    ensures
        nodes_end(bytes, pos, k) is Some,
    decreases n - k,
{
    if k < n {
        lemma_nodes_end(bytes, pos, n, k + 1);
    }
}

/// Look a point up in the coded tree behind the four bytes of the magic.
pub fn lookup_encoded(bytes: &[u8], point: Pt, ocean: u64) -> (r: u64)
    requires
        coded_value(bytes@, 4, ROOT_CELL, point, ocean) is Some,
    ensures
        coded_value(bytes@, 4, ROOT_CELL, point, ocean) == Some(r),
{
    let mut pos: usize = 4;
    let mut cell = ROOT_CELL;
    loop
        invariant
            pos <= bytes@.len(),
            is_within(cell),
            coded_value(bytes@, 4, ROOT_CELL, point, ocean) is Some,
            coded_value(bytes@, pos as int, cell, point, ocean) == coded_value(
                bytes@,
                4,
                ROOT_CELL,
                point,
                ocean,
            ),
        decreases bytes.len() - pos,
    {
        let ghost start = pos as int;
        let len = read_q(bytes, &mut pos);
        if len == 0 {
            return ocean;
        }
        if len == 1 {
            return read_q(bytes, &mut pos);
        }
        let q = quadrant_for_point(&cell, point);
        let ghost at = pos as int;
        let mut k: usize = 0;
        while k < q
            invariant
                0 <= k <= q,
                nodes_end(bytes@, at, q as int) is Some,
                nodes_end(bytes@, at, k as int) == Some(pos as int),
                start < pos <= bytes@.len(),
            decreases q - k,
        {
            proof {
                lemma_nodes_end(bytes@, at, q as int, k + 1);
            }
            skip_node(bytes, &mut pos);
            k += 1;
        }
        cell = split_cell(&cell, q);
    }
}

proof fn lemma_quad_len(node: QNode, ocean: u64)
    ensures
        1 <= quad_bytes(node, ocean).len(),
        node is Internal && too_long(node, ocean) is None ==> quad_bytes(node, ocean).len() >= 5,
    decreases node,
{
    if let QNode::Internal(a, b, c, d) = node {
        lemma_quad_len(*a, ocean);
        lemma_quad_len(*b, ocean);
        lemma_quad_len(*c, ocean);
        lemma_quad_len(*d, ocean);
    }
}

/// Reading the length of a payload.
proof fn lemma_frame(bytes: Seq<u8>, pos: int, body: Seq<u8>) -> (at: int)
    requires
        4 <= body.len(),
        q_at_least(body.len() as int) <= Q_MAX,
        holds_at(bytes, pos, framed_body(body)),
    ensures
        pos < at,
        get_q(bytes, pos) == Some((q_at_least(body.len() as int), at)),
        at + q_at_least(body.len() as int) == pos + framed_body(body).len(),
        pos + framed_body(body).len() <= bytes.len(),
        holds_at(bytes, at, body),
{
    let len = q_at_least(body.len() as int);
    let pad = zeros(len - body.len());
    lemma_holds_two(bytes, pos, q_bytes(len), body + pad);
    law_q_round_trip(bytes, pos, len);
    let at = pos + q_bytes(len).len();
    lemma_holds_two(bytes, at, body, pad);
    at
}

/// Reading a leaf with a timezone.
proof fn lemma_leaf(bytes: Seq<u8>, pos: int, t: int) -> (at: int)
    requires
        is_q(t),
        holds_at(bytes, pos, q_bytes(1) + q_bytes(t)),
    ensures
        get_q(bytes, pos) == Some((1int, at)),
        get_q(bytes, at) == Some((t, pos + (q_bytes(1) + q_bytes(t)).len())),
{
    lemma_holds_two(bytes, pos, q_bytes(1), q_bytes(t));
    law_q_round_trip(bytes, pos, 1);
    law_q_round_trip(bytes, pos + q_bytes(1).len(), t);
    pos + q_bytes(1).len()
}

proof fn lemma_payload_len(a: QNode, b: QNode, c: QNode, d: QNode, ocean: u64)
    ensures
        payload(
            quad_bytes(a, ocean),
            quad_bytes(b, ocean),
            quad_bytes(c, ocean),
            quad_bytes(d, ocean),
        ).len() >= 4,
{
    lemma_quad_len(a, ocean);
    lemma_quad_len(b, ocean);
    lemma_quad_len(c, ocean);
    lemma_quad_len(d, ocean);
}

/// A coded tree is stepped over as a whole.
proof fn lemma_node_end(bytes: Seq<u8>, pos: int, node: QNode, ocean: u64)
    requires
        leaves_exact(node, ocean),
        too_long(node, ocean) is None,
        holds_at(bytes, pos, quad_bytes(node, ocean)),
    ensures
        node_end(bytes, pos) == Some(pos + quad_bytes(node, ocean).len()),
{
    match node {
        QNode::Leaf(t) => {
            if t == ocean {
                law_q_round_trip(bytes, pos, 0);
            } else {
                let at = lemma_leaf(bytes, pos, t as int);
            }
        },
        QNode::Internal(a, b, c, d) => {
            lemma_payload_len(*a, *b, *c, *d, ocean);
            let body = payload(
                quad_bytes(*a, ocean),
                quad_bytes(*b, ocean),
                quad_bytes(*c, ocean),
                quad_bytes(*d, ocean),
            );
            lemma_frame(bytes, pos, body);
        },
    }
}

/// Where the quadrants stand in a payload.
proof fn lemma_quadrants(
    bytes: Seq<u8>,
    at: int,
    x: Seq<u8>,
    y: Seq<u8>,
    z: Seq<u8>,
    w: Seq<u8>,
)
    requires
        holds_at(bytes, at, payload(x, y, z, w)),
    ensures
        holds_at(bytes, at, x),
        holds_at(bytes, at + x.len(), y),
        holds_at(bytes, at + x.len() + y.len(), z),
        holds_at(bytes, at + x.len() + y.len() + z.len(), w),
{
    lemma_holds_two(bytes, at, x, y + (z + w));
    lemma_holds_two(bytes, at + x.len(), y, z + w);
    lemma_holds_two(bytes, at + x.len() + y.len(), z, w);
}

/// Stepping over quadrants.
proof fn lemma_steps(bytes: Seq<u8>, at: int, x: int, y: int, z: int)
    requires
        node_end(bytes, at) == Some(at + x),
        node_end(bytes, at + x) == Some(at + x + y),
        node_end(bytes, at + x + y) == Some(at + x + y + z),
    ensures
        nodes_end(bytes, at, 0) == Some(at),
        nodes_end(bytes, at, 1) == Some(at + x),
        nodes_end(bytes, at, 2) == Some(at + x + y),
        nodes_end(bytes, at, 3) == Some(at + x + y + z),
{
    assert(nodes_end(bytes, at, 0) == Some(at));
    assert(nodes_end(bytes, at, 1) == Some(at + x));
    assert(nodes_end(bytes, at, 2) == Some(at + x + y));
}

/// A lookup in the coded tree answers as the tree does, wherever the code
/// stands.
#[verifier::spinoff_prover]
pub proof fn law_coded_tree_answers_alike(
    bytes: Seq<u8>,
    pos: int,
    node: QNode,
    ocean: u64,
    cell: Aabb,
    p: Pt,
)
    requires
        leaves_exact(node, ocean),
        too_long(node, ocean) is None,
        holds_at(bytes, pos, quad_bytes(node, ocean)),
    ensures
        coded_value(bytes, pos, cell, p, ocean) == Some(tree_value(node, cell, p)),
    decreases node,
{
    match node {
        QNode::Leaf(t) => {
            if t == ocean {
                law_q_round_trip(bytes, pos, 0);
            } else {
                let at = lemma_leaf(bytes, pos, t as int);
            }
        },
        QNode::Internal(a, b, c, d) => {
            let (x, y, z, w) = (
                quad_bytes(*a, ocean),
                quad_bytes(*b, ocean),
                quad_bytes(*c, ocean),
                quad_bytes(*d, ocean),
            );
            lemma_payload_len(*a, *b, *c, *d, ocean);
            let at = lemma_frame(bytes, pos, payload(x, y, z, w));
            lemma_quadrants(bytes, at, x, y, z, w);
            let (p1, p2) = (at + x.len(), at + x.len() + y.len());
            let p3 = p2 + z.len();
            lemma_node_end(bytes, at, *a, ocean);
            lemma_node_end(bytes, p1, *b, ocean);
            lemma_node_end(bytes, p2, *c, ocean);
            lemma_steps(bytes, at, x.len() as int, y.len() as int, z.len() as int);
            let q = quadrant_of(cell, p);
            if q == 0 {
                law_coded_tree_answers_alike(bytes, at, *a, ocean, child_cell(cell, 0), p);
            } else if q == 1 {
                law_coded_tree_answers_alike(bytes, p1, *b, ocean, child_cell(cell, 1), p);
            } else if q == 2 {
                law_coded_tree_answers_alike(bytes, p2, *c, ocean, child_cell(cell, 2), p);
            } else {
                law_coded_tree_answers_alike(bytes, p3, *d, ocean, child_cell(cell, 3), p);
            }
        },
    }
}

} // verus!
