//! The serialized forms.
use tzconvert::artifact::{Node, Output};
use tzconvert::geom::Pt;
use tzconvert::quant::ROOT_CELL;
use tzconvert::serialize::binary::compute_order;
use tzconvert::serialize::json_text::json_str;
use tzconvert::serialize::leb::{write_svar, write_uvar};
use tzconvert::serialize::names::{common_prefix, decode_tz_names, encode_tz_names};
use tzconvert::serialize::order::{rank_table, sort_by_key, sort_by_name};
use tzconvert::serialize::quad::{can_plot, self_verify, verify_roundtrip, QuadtreeSerializer};
use tzconvert::serialize::quad_code::{encode_node, lookup_encoded};
use tzconvert::serialize::quad_tree::{count, lookup_tree, LeafRule, QNode, QMAX_DEPTH};
use tzconvert::serialize::sections::decode_arcs;
use tzconvert::serialize::text::{decimal_text, signed_text};
use tzconvert::serialize::tree_reader::{decode_node, DecKind};
use tzconvert::serialize::tree_writer::{encode_node as encode_tree, QBuf};
use tzconvert::serialize::zone_reader::{decode_arc_refs, decode_zones};
use tzconvert::serialize::{for_format, Serializer};

fn square(x: i64, y: i64, side: i64) -> Vec<Pt> {
    vec![[x, y], [x + side, y], [x + side, y + side], [x, y + side]]
}

fn rule() -> LeafRule {
    // Cells are split down to depth eight.
    LeafRule { rows: (0..8).map(|d| vec![true; 1 << d]).collect() }
}

fn built(zones: &[(Vec<Pt>, Vec<Vec<Pt>>, &str)], max_ops: i64) -> Output {
    let mut out = Output::new();
    for (outer, holes, name) in zones {
        out.append_zone(outer.clone(), holes.clone(), name);
    }
    out.build_topology(&[]);
    out.subdivide(max_ops, None);
    out.annotate();
    out.pack();
    out
}

fn one_square() -> Output {
    built(&[(square(0, 0, 1000), vec![], "Etc/A")], 500)
}

fn several() -> Output {
    built(
        &[
            (square(0, 0, 1000), vec![], "Europe/Zurich"),
            (square(1000, 0, 1000), vec![], "Europe/Berlin"),
            (square(-5000, -5000, 4000), vec![square(-4000, -4000, 1000)], "Africa/Cairo"),
            (square(-4000, -4000, 1000), vec![], "Europe/Zurich"),
        ],
        12,
    )
}

fn serialize(format: &str, out: &Output) -> Vec<u8> {
    for_format(format, rule()).ok().unwrap().serialize(out).unwrap()
}

#[test]
fn encode_decode_tree() {
    let ocean = 5000u64;
    let tree = QNode::internal(
        QNode::Leaf(3),
        // NW child holds an ocean leaf (length-0, 1 byte) among others.
        QNode::internal(QNode::Leaf(1), QNode::Leaf(ocean), QNode::Leaf(2), QNode::Leaf(0)),
        QNode::Leaf(7),
        QNode::Leaf(200), // form B tzid
    );
    let mut buf = Vec::new();
    buf.extend_from_slice(b"TZQ3");
    encode_node(&tree, &mut buf, ocean).unwrap();
    assert_eq!(lookup_encoded(&buf, [ROOT_CELL[1][0] - 1, ROOT_CELL[1][1] - 1], ocean), 3);
    assert_eq!(lookup_encoded(&buf, [ROOT_CELL[0][0], ROOT_CELL[0][1]], ocean), 7);
    for p in [[100, 100], [-100, -100], [500, -9], [ROOT_CELL[0][0], ROOT_CELL[1][1] - 1]] {
        assert_eq!(lookup_tree(&tree, &ROOT_CELL, p), lookup_encoded(&buf, p, ocean));
    }
    assert!(verify_roundtrip(&buf, &tree, ocean).is_ok());
    assert_eq!(count(&tree), (9, 7));
}

#[test]
fn quad_bytes_of_a_small_tree() {
    let ocean = 9u64;
    let tree = QNode::internal(QNode::Leaf(ocean), QNode::Leaf(1), QNode::Leaf(ocean), QNode::Leaf(130));
    let mut buf = Vec::new();
    encode_node(&tree, &mut buf, ocean).unwrap();
    assert_eq!(buf, vec![7, 0, 1, 1, 0, 1, 0x80, 2]);
}

#[test]
fn quad_round_trip_mismatch_is_reported() {
    let ocean = 9u64;
    let mut buf = b"TZQ3".to_vec();
    encode_node(&QNode::Leaf(4), &mut buf, ocean).unwrap();
    let err = verify_roundtrip(&buf, &QNode::Leaf(5), ocean).unwrap_err();
    assert!(err.starts_with("quad encode round-trip mismatch at ["));
    assert!(err.ends_with("]: tree 5 != encoded 4"));
}

#[test]
fn quad_payload_too_long() {
    // Each level holds four copies of the level below, so its payload is a
    // little over four times as long.
    fn full(depth: u32) -> QNode {
        if depth == 0 {
            QNode::Leaf(300)
        } else {
            QNode::internal(full(depth - 1), full(depth - 1), full(depth - 1), full(depth - 1))
        }
    }
    let mut buf = vec![1, 2];
    assert!(encode_node(&full(4), &mut buf, 999).is_ok());
    let mut kept = vec![1, 2];
    let err = encode_node(&full(11), &mut kept, 999).unwrap_err();
    assert!(err.starts_with("quad: node payload "));
    assert!(err.ends_with(
        " bytes exceeds the format's 8405120-byte limit; use a larger --leaf-km"
    ));
    assert_eq!(kept, vec![1, 2]);
}

#[test]
fn json_of_one_square() {
    let text = String::from_utf8(serialize("json", &one_square())).unwrap();
    assert_eq!(
        text,
        concat_parts(&[
            r#"{"quant":{"xMin":-524288,"xMax":524288,"yMin":-262144,"yMax":262144,"#,
            r#""xScale":2912.711111111111,"yScale":2912.711111111111,"maxDepth":16},"#,
            r#""rootCell":[[-524288,-262144],[524288,262144]],"#,
            r#""quadtree":{"ref":[{"z":0,"w":1,"e":[[0,[[0,3]]]]}]},"#,
            r#""arcs":[{"o":[0,0],"p":"n0AAgAPooMAAgAQY"}],"#,
            r#""zones":[{"id":0,"aabb":[[0,0],[1000,1000]],"a":2000000,"tzid":0,"outer":[0]}],"#,
            r#""tz":{"Etc/A":{"id":0,"n":"Etc/A","ref":[0]}}}"#,
        ])
    );
    assert_eq!(format!("{}", 524288.0 / 180.0), "2912.711111111111");
    assert_eq!(format!("{}", 262144.0 / 90.0), "2912.711111111111");
}

fn concat_parts(parts: &[&str]) -> String {
    parts.iter().map(|p| p.to_string()).collect()
}

#[test]
fn json_of_several_zones() {
    let out = several();
    let text = String::from_utf8(serialize("json", &out)).unwrap();
    // Inner nodes list their children first; a hole is listed behind the outer
    // ring; a reversed arc is negative.
    assert!(text.contains(r#""quadtree":{"q":[{"#));
    assert!(text.contains(r#""h":[["#));
    assert!(text.contains(r#""tz":{"Europe/Zurich":{"id":0,"n":"Europe/Zurich","ref":[0,3]},"#));
    let b = &out.zones[1];
    let refs: Vec<String> = b
        .outer_refs
        .iter()
        .map(|r| if r.rev { (-(r.arc as i64) - 1).to_string() } else { r.arc.to_string() })
        .collect();
    assert!(b.outer_refs.iter().any(|r| r.rev));
    assert!(text.contains(&format!(r#""outer":[{}]"#, refs.join(","))));
}

#[test]
fn json_strings_are_escaped() {
    let mut s = Vec::new();
    json_str(&mut s, "a\"b\\c\n\r\t\u{1}\u{1f}é".as_bytes());
    assert_eq!(
        String::from_utf8(s).unwrap(),
        "\"a\\\"b\\\\c\\n\\r\\t\\u0001\\u001fé\""
    );
}

#[test]
fn binary_of_one_square() {
    let bytes = serialize("binary", &one_square());
    let expected: Vec<u8> = vec![
        84, 90, 81, 84, 0, 0, 0, 0, 248, 255, 0, 0, 8, 0, 0, 0, 252, 255, 0, 0, 4, 0, 23, 108, 193,
        22, 108, 193, 166, 64, 23, 108, 193, 22, 108, 193, 166, 64, 16, 0, 1, 0, 0, 0, 1, 0, 0, 0,
        1, 0, 0, 0, 1, 0, 0, 0, 6, 4, 0, 12, 0, 0, 3, 0, 0, 12, 159, 64, 0, 128, 3, 232, 160, 192,
        0, 128, 4, 24, 0, 128, 137, 122, 0, 0, 232, 7, 232, 7, 1, 0, 0, 1, 0, 5, 69, 116, 99, 47,
        65,
    ];
    assert_eq!(bytes, expected);
    assert_eq!(&bytes[22..30], (524288.0f64 / 180.0).to_le_bytes());
    assert_eq!(&bytes[30..38], (262144.0f64 / 90.0).to_le_bytes());
    assert_eq!(serialize("bin", &one_square()), bytes);
}

#[test]
fn binary_reads_back() {
    let out = several();
    let bytes = serialize("binary", &out);
    let mut pos = 56;
    let root = decode_node(&bytes, &mut pos).unwrap();
    assert!(matches!(root.kind, DecKind::Internal(..)));
    let arcs = decode_arcs(&bytes, &mut pos, out.arc_packed.len()).unwrap();
    assert_eq!(arcs, out.arc_packed);
    let zones = decode_zones(&bytes, &mut pos, out.zones.len()).unwrap();
    let names = decode_tz_names(&bytes, &mut pos).unwrap();
    assert_eq!(pos, bytes.len());
    assert_eq!(
        names,
        vec![
            b"Africa/Cairo".to_vec(),
            b"Europe/Berlin".to_vec(),
            b"Europe/Zurich".to_vec(),
        ]
    );
    // Every zone is there under its rank, with its timezone's alphabetical rank.
    for z in &out.zones {
        let b = [z.aabb[0][0], z.aabb[0][1], z.aabb[1][0], z.aabb[1][1]];
        let dec = zones.iter().find(|d| d.aabb == b && d.area == z.a as u64).unwrap();
        assert_eq!(names[dec.tzid as usize], out.tz[z.tzid].n.as_bytes());
        let refs: Vec<(u64, bool)> =
            z.outer_refs.iter().map(|r| (r.arc as u64, r.rev)).collect();
        assert_eq!(dec.outer, refs);
        assert_eq!(dec.holes.len(), z.hole_refs.len());
    }
}

#[test]
fn binary_ranks_the_busiest_zone_first() {
    let out = several();
    let mut refs = vec![0; out.zones.len()];
    for node in &out.arena {
        for &z in &node.eref {
            refs[z] += 1;
        }
        for c in &node.cands {
            refs[c.z] += 1;
        }
    }
    let bytes = serialize("binary", &out);
    let mut pos = 56;
    decode_node(&bytes, &mut pos).unwrap();
    decode_arcs(&bytes, &mut pos, out.arc_packed.len()).unwrap();
    let zones = decode_zones(&bytes, &mut pos, out.zones.len()).unwrap();
    let busiest = (0..refs.len()).max_by_key(|&z| (refs[z], refs.len() - z)).unwrap();
    assert_eq!(zones[0].area, out.zones[busiest].a as u64);
}

#[test]
fn truncated_sections_are_not_read() {
    let bytes = serialize("binary", &one_square());
    for end in 57..63 {
        let mut pos = 56;
        assert!(decode_node(&bytes[..end], &mut pos).is_none());
    }
    let mut pos = 63;
    assert!(decode_arcs(&bytes[..70], &mut pos, 1).is_none());
}

#[test]
fn binary_refuses_values_without_a_code() {
    // The gap before the only run is odd and too large for an exact code.
    let mut out = one_square();
    out.arena[0].cands[0].e[0].runs = vec![(16515, 16515)];
    let s = for_format("binary", rule()).ok().unwrap();
    assert_eq!(s.serialize(&out).unwrap_err(), "binary quadtree round-trip mismatch");
}

#[test]
fn binary_refuses_overlong_bodies() {
    let mut out = one_square();
    // A leaf that lists the zone so often that its body is too long.
    out.arena[0].eref = vec![0; 8405121];
    let s = for_format("binary", rule()).ok().unwrap();
    let err = s.serialize(&out).unwrap_err();
    assert!(err.starts_with("binary: node body "));
    assert!(err.ends_with(" bytes exceeds the 8405120-byte limit"));
}

#[test]
fn quad_file_of_several_zones() {
    let out = several();
    let s = QuadtreeSerializer { rule: rule() };
    let (root, order) = s.plan(&out);
    let ocean = out.tz.len() as u64;
    let bytes = s.serialize(&out).unwrap();
    assert_eq!(&bytes[..4], b"TZQ3");
    for p in [[500, 500], [1500, 500], [-4500, -4500], [-3500, -3500], [100000, 5], [-1, -1]] {
        assert_eq!(lookup_encoded(&bytes, p, ocean), lookup_tree(&root, &ROOT_CELL, p));
    }
    // Far from every border the tree is exact.
    assert_eq!(lookup_tree(&root, &ROOT_CELL, [100000, 100000]), ocean);
    // The table ends the file.
    let last = &out.tz[*order.last().unwrap()].n;
    assert!(bytes.ends_with(last.as_bytes()));
    assert!(self_verify(&out, &root, &order, ocean, 4000) > 3900);
}

#[test]
fn quad_cells_are_exact_once_they_are_homogeneous() {
    // The zone's border runs along cell borders, so splitting settles it.
    let out = built(&[(square(0, 0, 65536), vec![], "Etc/A")], 500);
    let s = QuadtreeSerializer { rule: LeafRule { rows: (0..QMAX_DEPTH).map(|d| vec![true; 1 << d]).collect() } };
    let (root, order) = s.plan(&out);
    assert_eq!(order, vec![0]);
    assert_eq!(lookup_tree(&root, &ROOT_CELL, [30000, 30000]), 0);
    assert_eq!(lookup_tree(&root, &ROOT_CELL, [90000, 30000]), 1);
    assert_eq!(lookup_tree(&root, &ROOT_CELL, [-5, 30000]), 1);
}

#[test]
fn quad_majority_wins_at_the_limit() {
    // Without any splitting the root cell is one leaf, and most sample points
    // of the root cell lie in the larger zone.
    let out = built(
        &[
            (square(-262144, -262144, 524288), vec![], "Etc/Large"),
            (square(300000, 0, 1000), vec![], "Etc/Small"),
        ],
        500,
    );
    let s = QuadtreeSerializer { rule: LeafRule { rows: vec![] } };
    let (root, _) = s.plan(&out);
    assert_eq!(count(&root), (1, 1));
    // Half of the sample points lie in the large zone and half in the ocean; of
    // equals the lower id wins.
    assert_eq!(lookup_tree(&root, &ROOT_CELL, [400000, 0]), 0);
}

#[test]
fn formats_by_name() {
    assert_eq!(for_format("json", rule()).ok().unwrap().format_name(), "json");
    assert_eq!(for_format("bin", rule()).ok().unwrap().format_name(), "binary");
    let quad = for_format("quad", rule()).ok().unwrap();
    assert_eq!(quad.format_name(), "quad");
    assert!(!quad.uses_cost_tree());
    assert!(quad.is_complete());
    assert!(for_format("binary", rule()).ok().unwrap().uses_cost_tree());
    assert_eq!(
        for_format("xml", rule()).err().unwrap(),
        "unknown output format 'xml' (expected 'json', 'binary', or 'quad')"
    );
}

#[test]
fn names_are_front_coded() {
    let names = vec![b"America/Lima".to_vec(), b"Africa/Accra".to_vec(), b"America/Nome".to_vec()];
    let order = sort_by_name(&names);
    assert_eq!(order, vec![1, 0, 2]);
    assert_eq!(common_prefix(&names[0], &names[2]), 8);
    let mut buf = Vec::new();
    encode_tz_names(&names, &order, &mut buf);
    let expected: Vec<u8> =
        [&[3u8, 0, 12][..], b"Africa/Accra", &[1, 11], b"merica/Lima", &[8, 4], b"Nome"].concat();
    assert_eq!(buf, expected);
    let mut pos = 0;
    let read = decode_tz_names(&buf, &mut pos).unwrap();
    assert_eq!(read, vec![names[1].clone(), names[0].clone(), names[2].clone()]);
    assert_eq!(pos, buf.len());
}

#[test]
fn ordering_is_stable() {
    assert_eq!(sort_by_key(&[5, 1, 5, 0]), vec![3, 1, 0, 2]);
    assert_eq!(rank_table(&[3, 1, 0, 2]), vec![2, 1, 3, 0]);
}

#[test]
fn numbers_as_text() {
    assert_eq!(decimal_text(0), "0");
    assert_eq!(decimal_text(u64::MAX), "18446744073709551615");
    assert_eq!(signed_text(-524288), "-524288");
    assert_eq!(signed_text(i64::MIN), "-9223372036854775808");
}

#[test]
fn quad_holds_names_with_exact_lengths() {
    let mut out = one_square();
    assert!(can_plot(&out));
    out.tz[0].n = "x".repeat(16511);
    assert!(can_plot(&out));
    out.tz[0].n = "x".repeat(16512);
    assert!(!can_plot(&out));
    out.tz[0].n = "x".repeat(16514);
    assert!(can_plot(&out));
    out.zones[0].tzid = 1;
    assert!(!can_plot(&out));
}

#[test]
fn nodes_end_where_their_length_says() {
    // An empty leaf whose length leaves out its header.
    let mut pos = 0;
    let node = decode_node(&[0, 0], &mut pos).unwrap();
    assert!(node.eref.is_empty());
    assert!(matches!(node.kind, DecKind::Leaf(ref c) if c.is_empty()));
    assert_eq!(pos, 1);
    // One that claims to go on beyond the bytes.
    pos = 0;
    assert!(decode_node(&[5, 0], &mut pos).is_some());
    assert_eq!(pos, 6);
    // Four such leaves in a row, each read from where the one before ends.
    pos = 0;
    let inner = decode_node(&[3, 1, 0, 0, 0, 0, 0], &mut pos).unwrap();
    assert!(matches!(inner.kind, DecKind::Internal(..)));
    assert_eq!(pos, 4);
    // The second one would start beyond the end.
    pos = 0;
    assert!(decode_node(&[3, 1, 9, 0], &mut pos).is_none());
}

#[test]
fn arc_indices_are_read_as_unsigned() {
    // A step of -1 from 0, then one of 2.
    let mut bytes = Vec::new();
    write_uvar(&mut bytes, 2);
    write_uvar(&mut bytes, 1 << 1);
    write_uvar(&mut bytes, (4 << 1) | 1);
    let (mut pos, mut prev) = (0, 0i64);
    let refs = decode_arc_refs(&bytes, &mut pos, &mut prev).unwrap();
    assert_eq!(refs, vec![(u64::MAX, false), (1, true)]);
    assert_eq!(prev, 1);
    // A running index that overflows is not read.
    prev = i64::MAX;
    pos = 0;
    let mut over = Vec::new();
    write_uvar(&mut over, 1);
    write_uvar(&mut over, 2 << 1);
    assert!(decode_arc_refs(&over, &mut pos, &mut prev).is_none());
}

#[test]
fn extents_are_read_as_signed() {
    let zone = |x: i64, dx: u64| {
        let mut bytes = Vec::new();
        write_uvar(&mut bytes, 0);
        write_uvar(&mut bytes, 10);
        write_svar(&mut bytes, x);
        write_svar(&mut bytes, 7);
        write_uvar(&mut bytes, dx);
        write_uvar(&mut bytes, 3);
        write_uvar(&mut bytes, 0);
        write_uvar(&mut bytes, 0);
        let mut pos = 0;
        decode_zones(&bytes, &mut pos, 1).map(|z| z[0].aabb)
    };
    assert_eq!(zone(5, 20), Some([5, 7, 25, 10]));
    assert_eq!(zone(5, u64::MAX), Some([5, 7, 4, 10]));
    assert_eq!(zone(i64::MAX, 1), None);
}

#[test]
fn order_counts_references_of_any_tree() {
    // The node is its own child, and lists zones twice.
    let mut node = Node::leaf();
    node.q = Some([0, 0, 0, 0]);
    node.eref = vec![2, 1, 2];
    assert_eq!(compute_order(&[node], 4), vec![2, 1, 0, 3]);
}

#[test]
fn refused_nodes_leave_the_buffer_alone() {
    let mut node = Node::leaf();
    node.eref = vec![0; 8405121];
    let mut buf = QBuf::new();
    buf.put(7);
    assert!(encode_tree(&[node], 0, &[0], &mut buf).is_err());
    assert_eq!(buf.bytes, vec![7]);
    assert!(buf.exact);
    assert!(encode_tree(&[Node::leaf()], 0, &[], &mut buf).is_ok());
    assert_eq!(buf.bytes, vec![7, 1, 0]);
}
