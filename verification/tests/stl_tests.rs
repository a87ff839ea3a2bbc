//! Tests of the binary STL parser, the vertex-index mesh and the
//! command-line types.

use mandoline::StlError;
use mandoline::SvgArgs;
use mandoline::SvgCommand;
use mandoline::Triangle;
use mandoline::Vector3;
use mandoline::VertexIndex;
use mandoline::parse_stl;

const U: i64 = 1_000_000;

/// Encodes a binary STL byte stream from triangles given as nine floats
/// each.
fn stl_bytes(tris: &[[f32; 9]]) -> Vec<u8> {
    let mut out = vec![0u8; 80];
    out.extend_from_slice(&(tris.len() as u32).to_le_bytes());
    for t in tris {
        out.extend_from_slice(&[0u8; 12]); // normal, ignored
        for c in t {
            out.extend_from_slice(&c.to_le_bytes());
        }
        out.extend_from_slice(&[0u8; 2]); // attribute byte count, ignored
    }
    out
}

/// The classic 20-unit cube as its twelve STL records.
fn cube_records() -> Vec<[f32; 9]> {
    let x0 = [0.0, 20.0, 20.0];
    let x1 = [20.0, 0.0, 20.0];
    let x2 = [20.0, 20.0, 20.0];
    let x3 = [0.0, 0.0, 20.0];
    let x4 = [0.0, 0.0, 0.0];
    let x5 = [20.0, 20.0, 0.0];
    let x6 = [20.0, 0.0, 0.0];
    let x7 = [0.0, 20.0, 0.0];
    let order = [
        [x0, x1, x2],
        [x1, x0, x3],
        [x4, x5, x6],
        [x5, x4, x7],
        [x4, x1, x3],
        [x1, x4, x6],
        [x1, x5, x2],
        [x5, x1, x6],
        [x5, x0, x2],
        [x0, x5, x7],
        [x4, x0, x7],
        [x0, x4, x3],
    ];
    order
        .iter()
        .map(|t| {
            [
                t[0][0], t[0][1], t[0][2], t[1][0], t[1][1], t[1][2], t[2][0], t[2][1], t[2][2],
            ]
        })
        .collect()
}

/// Raw STL words to fixed-point sub-units.
fn words_to_subunits(words: &[u32]) -> Vec<i64> {
    words
        .iter()
        .map(|w| (f32::from_bits(*w) as f64 * U as f64).round() as i64)
        .collect()
}

#[test]
fn integration_parse_cube() {
    let bytes = stl_bytes(&cube_records());
    let stl = parse_stl(&bytes).unwrap();
    // Expect 12 triangles (2 per face x 6 faces)
    assert_eq!(12, stl.triangles());
}

#[test]
fn create_cube_mesh() {
    let bytes = stl_bytes(&cube_records());
    let stl = parse_stl(&bytes).unwrap();
    let coords = words_to_subunits(&stl.into_inner());
    let mesh = VertexIndex::from_triangles(coords).unwrap();
    assert_eq!(mesh.triangle_count(), 12);

    // Expect a cube from 0-20 on x,y,z.
    let v = |x: i64, y: i64, z: i64| Vector3 { x: x * U, y: y * U, z: z * U };
    let x0 = v(0, 20, 20);
    let x1 = v(20, 0, 20);
    let x2 = v(20, 20, 20);
    let x3 = v(0, 0, 20);
    let x4 = v(0, 0, 0);
    let x5 = v(20, 20, 0);
    let x6 = v(20, 0, 0);
    let x7 = v(0, 20, 0);
    let expected = vec![
        (x0, x1, x2),
        (x1, x0, x3),
        (x4, x5, x6),
        (x5, x4, x7),
        (x4, x1, x3),
        (x1, x4, x6),
        (x1, x5, x2),
        (x5, x1, x6),
        (x5, x0, x2),
        (x0, x5, x7),
        (x4, x0, x7),
        (x0, x4, x3),
    ];
    let triangles = mesh.triangles();
    assert_eq!(triangles.len(), expected.len());
    for (t, e) in triangles.iter().zip(expected.iter()) {
        assert_eq!(*t, Triangle { p0: e.0, p1: e.1, p2: e.2 });
    }
}

#[test]
fn create_stl_mesh() {
    let bytes = stl_bytes(&cube_records());
    let stl = parse_stl(&bytes).unwrap();
    let coords = words_to_subunits(&stl.into_inner());
    let _mesh = VertexIndex::from_triangles(coords).unwrap();
}

#[test]
fn truncated_stl_is_rejected() {
    // shorter than the header
    assert_eq!(parse_stl(&[0u8; 50]), Err(StlError::UnexpectedEof));
    // header and count but a missing record
    let mut bytes = stl_bytes(&cube_records());
    bytes.truncate(bytes.len() - 1);
    assert_eq!(parse_stl(&bytes), Err(StlError::UnexpectedEof));
}

#[test]
fn empty_stl_parses() {
    let bytes = stl_bytes(&[]);
    let stl = parse_stl(&bytes).unwrap();
    assert_eq!(stl.triangles(), 0);
    assert_eq!(stl.into_inner().len(), 0);
}

#[test]
fn from_triangles_rejects_ragged_input() {
    assert!(VertexIndex::from_triangles(vec![0i64; 10]).is_none());
    assert!(VertexIndex::from_triangles(vec![0i64; 9]).is_some());
    assert!(VertexIndex::from_triangles(Vec::new()).is_some());
}

#[test]
fn svg_command_from_args_all_layers() {
    let args = SvgArgs {
        output: String::from("out.svg"),
        layer: None,
        grid: false,
        frame_width: None,
        stl_path: String::from("cube.stl"),
    };
    let _command = SvgCommand::from_args(args);
}

#[test]
fn svg_command_from_args_single_layer() {
    let args = SvgArgs {
        output: String::from("out.svg"),
        layer: Some(3),
        grid: false,
        frame_width: Some(400),
        stl_path: String::from("cube.stl"),
    };
    let _command = SvgCommand::from_args(args);
}
