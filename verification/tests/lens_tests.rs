//! Tests of the lens library hashing and box bookkeeping.

use advent_solvers::lens_library::{focusing_power, hash, parse, q2, Lens};

const EXAMPLE: &str = "rn=1,cm-,qp=3,cm=2,qp-,pc=4,ot=9,ab=5,pc-,pc=6,ot=7";

#[test]
fn test_hash() {
    assert_eq!(hash("HASH"), 52);
}

#[test]
fn test_q1() {
    let hashes: Vec<_> = parse(EXAMPLE).unwrap().iter().map(|step| step.hash).collect();
    let expected = vec![30, 253, 97, 47, 14, 180, 9, 197, 48, 214, 231];
    assert_eq!(hashes, expected);
    let q1: usize = hashes.into_iter().sum();
    assert_eq!(q1, 1320);
}

#[test]
fn test_q2() {
    let parsed = parse(EXAMPLE).unwrap();
    let boxes = q2(parsed);
    assert_eq!(
        boxes[0],
        vec![
            Lens { label: b"rn".to_vec(), focal_length: 1 },
            Lens { label: b"cm".to_vec(), focal_length: 2 },
        ]
    );
    assert_eq!(
        boxes[3],
        vec![
            Lens { label: b"ot".to_vec(), focal_length: 7 },
            Lens { label: b"ab".to_vec(), focal_length: 5 },
            Lens { label: b"pc".to_vec(), focal_length: 6 },
        ]
    );
    let expected = 145;
    let actual = focusing_power(&boxes);
    assert_eq!(actual, expected);
}

#[test]
fn test_lens_parse_rejects() {
    // a piece with neither a dash nor an equals sign is malformed
    assert!(parse("rn=1,bad").is_none());
    // a non-numeric focal length is malformed
    assert!(parse("rn=x").is_none());
}
