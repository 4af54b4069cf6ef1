use edlib_rs::cigar::edlibCigarToAlignmentRs;
use edlib_rs::edlib::{
    edlibAlignRs, edlibAlignmentToCigarRs, prepare, EdlibAlignConfigRs, EdlibAlignModeRs,
    EdlibAlignResultRs, EdlibAlignTaskRs, EdlibCigarFormatRs, EdlibEdopRs, EdlibEqualityPairRs,
    EngineError, EDLIB_STATUS_ERROR, EDLIB_STATUS_OK,
};
use edlib_rs::edlib::EdlibAlignModeRs::{EDLIB_MODE_HW, EDLIB_MODE_NW, EDLIB_MODE_SHW};
use edlib_rs::edlib::EdlibAlignTaskRs::{EDLIB_TASK_DISTANCE, EDLIB_TASK_LOC, EDLIB_TASK_PATH};
use edlib_rs::edlib::EdlibEdopRs::{
    EDLIB_EDOP_DELETE, EDLIB_EDOP_INSERT, EDLIB_EDOP_MATCH, EDLIB_EDOP_MISMATCH,
};

fn align(q: &[u8], t: &[u8], k: i32, mode: EdlibAlignModeRs, task: EdlibAlignTaskRs) -> EdlibAlignResultRs {
    edlibAlignRs(q, t, &EdlibAlignConfigRs::new(k, mode, task, Vec::new()))
}

/// A plain dynamic program, to compare the engine with.
fn reference_row(q: &[u8], t: &[u8], free_start: bool) -> Vec<usize> {
    let mut prev: Vec<usize> = (0..=t.len()).map(|j| if free_start { 0 } else { j }).collect();
    for i in 1..=q.len() {
        let mut cur = vec![i; t.len() + 1];
        for j in 1..=t.len() {
            let diag = prev[j - 1] + if q[i - 1] == t[j - 1] { 0 } else { 1 };
            cur[j] = diag.min(prev[j] + 1).min(cur[j - 1] + 1);
        }
        prev = cur;
    }
    prev
}

fn reference_distance(q: &[u8], t: &[u8], mode: EdlibAlignModeRs) -> usize {
    let row = reference_row(q, t, mode == EDLIB_MODE_HW);
    if mode == EDLIB_MODE_NW {
        row[t.len()]
    } else if q.is_empty() || t.is_empty() {
        q.len()
    } else {
        *row[1..].iter().min().unwrap()
    }
}

fn reference_ends(q: &[u8], t: &[u8], mode: EdlibAlignModeRs) -> Vec<i32> {
    if mode == EDLIB_MODE_NW {
        return vec![t.len() as i32 - 1];
    }
    if q.is_empty() || t.is_empty() {
        return vec![-1];
    }
    let row = reference_row(q, t, mode == EDLIB_MODE_HW);
    let best = *row[1..].iter().min().unwrap();
    (1..=t.len()).filter(|j| row[*j] == best).map(|j| j as i32 - 1).collect()
}

/// A sequence of `len` symbols out of `letters`, from a fixed formula.
fn sequence(len: usize, seed: u64, letters: &[u8]) -> Vec<u8> {
    let mut state = seed.wrapping_mul(6364136223846793005).wrapping_add(1442695040888963407);
    let mut out = Vec::new();
    for _ in 0..len {
        state = state.wrapping_mul(6364136223846793005).wrapping_add(1442695040888963407);
        out.push(letters[((state >> 33) as usize) % letters.len()]);
    }
    out
}

fn replay(q: &[u8], w: &[u8], path: &[EdlibEdopRs]) -> Vec<u8> {
    let (mut i, mut j) = (0, 0);
    let mut out = Vec::new();
    for op in path {
        match op {
            EDLIB_EDOP_MATCH => {
                out.push(q[i]);
                i += 1;
                j += 1;
            }
            EDLIB_EDOP_MISMATCH => {
                out.push(w[j]);
                i += 1;
                j += 1;
            }
            EDLIB_EDOP_INSERT => {
                out.push(w[j]);
                j += 1;
            }
            EDLIB_EDOP_DELETE => {
                i += 1;
            }
        }
    }
    assert_eq!(i, q.len());
    assert_eq!(j, w.len());
    out
}

#[test]
fn prefix_of_target_costs_nothing() {
    let r = align(b"AACT", b"AACTGGC", -1, EDLIB_MODE_SHW, EDLIB_TASK_DISTANCE);
    assert_eq!(r.status, EDLIB_STATUS_OK);
    assert_eq!(r.editDistance, 0);
    assert_eq!(r.endLocations, Some(vec![3]));
    assert_eq!(r.startLocations, None);
    assert_eq!(r.numLocations, 1);
    assert_eq!(r.alphabetLength, 4);
}

#[test]
fn infix_is_found_inside_target() {
    let r = align(b"ACT", b"CGACTGAC", -1, EDLIB_MODE_HW, EDLIB_TASK_PATH);
    assert_eq!(r.status, EDLIB_STATUS_OK);
    assert_eq!(r.editDistance, 0);
    assert_eq!(r.endLocations, Some(vec![4]));
    assert_eq!(r.startLocations, Some(vec![2]));
    assert_eq!(r.numLocations, 1);
    assert_eq!(r.alignment, Some(vec![EDLIB_EDOP_MATCH, EDLIB_EDOP_MATCH, EDLIB_EDOP_MATCH]));
    assert_eq!(r.alignmentLength, 3);
}

#[test]
fn kitten_and_sitting_differ_by_three() {
    let r = align(b"KITTEN", b"SITTING", -1, EDLIB_MODE_NW, EDLIB_TASK_PATH);
    assert_eq!(r.editDistance, 3);
    assert_eq!(r.endLocations, Some(vec![6]));
    assert_eq!(r.startLocations, Some(vec![0]));
    let path = r.alignment.unwrap();
    assert_eq!(
        path,
        vec![
            EDLIB_EDOP_MISMATCH,
            EDLIB_EDOP_MATCH,
            EDLIB_EDOP_MATCH,
            EDLIB_EDOP_MATCH,
            EDLIB_EDOP_MISMATCH,
            EDLIB_EDOP_MATCH,
            EDLIB_EDOP_INSERT
        ]
    );
    assert_eq!(r.alignmentLength, 7);
    assert_eq!(replay(b"KITTEN", b"SITTING", &path), b"SITTING".to_vec());
    assert_eq!(r.alphabetLength, 7);
}

#[test]
fn equal_sequences_under_bound_zero() {
    for mode in [EDLIB_MODE_NW, EDLIB_MODE_SHW, EDLIB_MODE_HW] {
        let r = align(b"AB", b"AB", 0, mode, EDLIB_TASK_DISTANCE);
        assert_eq!(r.status, EDLIB_STATUS_OK);
        assert_eq!(r.editDistance, 0);
        assert_eq!(r.endLocations, Some(vec![1]));
    }
}

#[test]
fn distance_above_bound_is_reported_as_minus_one() {
    let q = b"AAAAA";
    let t = b"CCCCC";
    let free = align(q, t, -1, EDLIB_MODE_NW, EDLIB_TASK_PATH);
    assert_eq!(free.editDistance, 5);
    let r = align(q, t, 2, EDLIB_MODE_NW, EDLIB_TASK_PATH);
    assert_eq!(r.status, EDLIB_STATUS_OK);
    assert_eq!(r.editDistance, -1);
    assert_eq!(r.endLocations, None);
    assert_eq!(r.startLocations, None);
    assert_eq!(r.alignment, None);
    assert_eq!(r.numLocations, 0);
    assert_eq!(r.alignmentLength, 0);
    assert_eq!(r.alphabetLength, 2);
    let exact = align(q, t, 5, EDLIB_MODE_NW, EDLIB_TASK_DISTANCE);
    assert_eq!(exact.editDistance, 5);
    let short = align(q, t, 4, EDLIB_MODE_NW, EDLIB_TASK_DISTANCE);
    assert_eq!(short.editDistance, -1);
}

#[test]
fn global_distance_is_symmetric() {
    for seed in 0..40u64 {
        let a = sequence((seed % 9) as usize * 11, seed, b"ACGT");
        let b = sequence((seed % 7) as usize * 13, seed + 100, b"ACGT");
        let ab = align(&a, &b, -1, EDLIB_MODE_NW, EDLIB_TASK_DISTANCE);
        let ba = align(&b, &a, -1, EDLIB_MODE_NW, EDLIB_TASK_DISTANCE);
        assert_eq!(ab.editDistance, ba.editDistance);
    }
}

#[test]
fn distance_to_self_is_zero() {
    for len in [1usize, 2, 63, 64, 65, 128, 200] {
        let a = sequence(len, len as u64, b"ACGT");
        let r = align(&a, &a, -1, EDLIB_MODE_NW, EDLIB_TASK_DISTANCE);
        assert_eq!(r.editDistance, 0);
        let r = align(&a, &a, 0, EDLIB_MODE_NW, EDLIB_TASK_DISTANCE);
        assert_eq!(r.editDistance, 0);
    }
}

#[test]
fn larger_bound_keeps_a_found_result() {
    let q = sequence(70, 1, b"ACGT");
    let t = sequence(90, 2, b"ACGT");
    for mode in [EDLIB_MODE_NW, EDLIB_MODE_SHW, EDLIB_MODE_HW] {
        let exact = align(&q, &t, -1, mode, EDLIB_TASK_LOC);
        let d = exact.editDistance;
        for k in [d, d + 1, d + 7, 2 * d + 64, 1000] {
            let r = align(&q, &t, k, mode, EDLIB_TASK_LOC);
            assert_eq!(r.editDistance, d);
            assert_eq!(r.endLocations, exact.endLocations);
            assert_eq!(r.startLocations, exact.startLocations);
        }
        if d > 0 {
            assert_eq!(align(&q, &t, d - 1, mode, EDLIB_TASK_LOC).editDistance, -1);
        }
    }
}

#[test]
fn freer_modes_cost_less() {
    for seed in 0..40u64 {
        let q = sequence(5 + (seed % 5) as usize * 17, seed, b"ACGT");
        let t = sequence(9 + (seed % 6) as usize * 23, seed + 7, b"ACGT");
        let nw = align(&q, &t, -1, EDLIB_MODE_NW, EDLIB_TASK_DISTANCE).editDistance;
        let shw = align(&q, &t, -1, EDLIB_MODE_SHW, EDLIB_TASK_DISTANCE).editDistance;
        let hw = align(&q, &t, -1, EDLIB_MODE_HW, EDLIB_TASK_DISTANCE).editDistance;
        assert!(hw <= shw);
        assert!(shw <= nw);
    }
}

#[test]
fn engine_agrees_with_plain_dynamic_program() {
    for seed in 0..60u64 {
        let m = [0usize, 1, 3, 20, 63, 64, 65, 130, 200][(seed % 9) as usize];
        let n = [0usize, 1, 5, 40, 64, 100, 129, 300][(seed % 8) as usize];
        let q = sequence(m, seed * 3 + 1, b"ACGT");
        let t = sequence(n, seed * 5 + 2, b"ACGT");
        for mode in [EDLIB_MODE_NW, EDLIB_MODE_SHW, EDLIB_MODE_HW] {
            let d = reference_distance(&q, &t, mode);
            let ends = reference_ends(&q, &t, mode);
            let r = align(&q, &t, -1, mode, EDLIB_TASK_DISTANCE);
            assert_eq!(r.status, EDLIB_STATUS_OK);
            assert_eq!(r.editDistance, d as i32);
            assert_eq!(r.endLocations, Some(ends.clone()));
            assert_eq!(r.numLocations, ends.len());
            for k in [0usize, 1, 2, 10, 70, 400] {
                let r = align(&q, &t, k as i32, mode, EDLIB_TASK_DISTANCE);
                if d <= k {
                    assert_eq!(r.editDistance, d as i32);
                    assert_eq!(r.endLocations, Some(ends.clone()));
                } else {
                    assert_eq!(r.editDistance, -1);
                    assert_eq!(r.endLocations, None);
                }
            }
        }
    }
}

#[test]
fn engine_agrees_on_similar_sequences() {
    for seed in 0..20u64 {
        let t = sequence(400, seed, b"ACGT");
        let mut q = t[100..300].to_vec();
        q[17] = b'N';
        q.remove(80);
        q.insert(150, b'N');
        for mode in [EDLIB_MODE_NW, EDLIB_MODE_SHW, EDLIB_MODE_HW] {
            let d = reference_distance(&q, &t, mode);
            let r = align(&q, &t, -1, mode, EDLIB_TASK_DISTANCE);
            assert_eq!(r.editDistance, d as i32);
            assert_eq!(r.endLocations, Some(reference_ends(&q, &t, mode)));
        }
        let r = align(&q, &t, 5, EDLIB_MODE_HW, EDLIB_TASK_PATH);
        assert_eq!(r.editDistance, 3);
        let s = r.startLocations.clone().unwrap()[0] as usize;
        let e = r.endLocations.clone().unwrap()[0] as usize;
        assert_eq!(replay(&q, &t[s..=e], &r.alignment.unwrap()), t[s..=e].to_vec());
    }
}

#[test]
fn path_rebuilds_window() {
    for seed in 0..60u64 {
        let q = sequence(1 + (seed % 7) as usize * 9, seed + 11, b"ACGT");
        let t = sequence(3 + (seed % 5) as usize * 21, seed + 13, b"ACGT");
        for mode in [EDLIB_MODE_NW, EDLIB_MODE_SHW, EDLIB_MODE_HW] {
            let r = align(&q, &t, -1, mode, EDLIB_TASK_PATH);
            let ends = r.endLocations.clone().unwrap();
            let starts = r.startLocations.clone().unwrap();
            assert_eq!(starts.len(), ends.len());
            assert_eq!(r.numLocations, ends.len());
            let s = starts[0] as usize;
            let e = (ends[0] + 1) as usize;
            let path = r.alignment.clone().unwrap();
            assert_eq!(r.alignmentLength as usize, path.len());
            let window = &t[s..e];
            assert_eq!(replay(&q, window, &path), window.to_vec());
            let cost = path.iter().filter(|op| **op != EDLIB_EDOP_MATCH).count();
            assert_eq!(cost as i32, r.editDistance);
            let taken = path.iter().filter(|op| **op != EDLIB_EDOP_INSERT).count();
            assert_eq!(taken, q.len());
            for (x, end) in ends.iter().enumerate() {
                let w = &t[starts[x] as usize..(*end + 1) as usize];
                assert_eq!(reference_distance(&q, w, EDLIB_MODE_NW) as i32, r.editDistance);
                if mode == EDLIB_MODE_HW {
                    for earlier in 0..starts[x] as usize {
                        let w = &t[earlier..(*end + 1) as usize];
                        assert!(reference_distance(&q, w, EDLIB_MODE_NW) as i32 > r.editDistance);
                    }
                }
            }
        }
    }
}

#[test]
fn empty_sequences() {
    let r = align(b"", b"", -1, EDLIB_MODE_NW, EDLIB_TASK_PATH);
    assert_eq!(r.editDistance, 0);
    assert_eq!(r.endLocations, Some(vec![-1]));
    assert_eq!(r.startLocations, Some(vec![0]));
    assert_eq!(r.alignment, Some(vec![]));
    assert_eq!(r.alphabetLength, 0);

    let r = align(b"", b"ACG", -1, EDLIB_MODE_NW, EDLIB_TASK_PATH);
    assert_eq!(r.editDistance, 3);
    assert_eq!(r.endLocations, Some(vec![2]));
    assert_eq!(r.alignment, Some(vec![EDLIB_EDOP_INSERT; 3]));

    let r = align(b"ACG", b"", -1, EDLIB_MODE_NW, EDLIB_TASK_PATH);
    assert_eq!(r.editDistance, 3);
    assert_eq!(r.endLocations, Some(vec![-1]));
    assert_eq!(r.alignment, Some(vec![EDLIB_EDOP_DELETE; 3]));

    for mode in [EDLIB_MODE_SHW, EDLIB_MODE_HW] {
        let r = align(b"", b"ACG", -1, mode, EDLIB_TASK_PATH);
        assert_eq!(r.editDistance, 0);
        assert_eq!(r.endLocations, Some(vec![-1]));
        assert_eq!(r.startLocations, Some(vec![0]));
        assert_eq!(r.alignment, Some(vec![]));
        let r = align(b"ACG", b"", -1, mode, EDLIB_TASK_PATH);
        assert_eq!(r.editDistance, 3);
        assert_eq!(r.endLocations, Some(vec![-1]));
        assert_eq!(r.alignment, Some(vec![EDLIB_EDOP_DELETE; 3]));
        let r = align(b"ACG", b"", 2, mode, EDLIB_TASK_PATH);
        assert_eq!(r.editDistance, -1);
        assert_eq!(r.endLocations, None);
    }
}

#[test]
fn several_end_locations() {
    let r = align(b"AC", b"ACGACTTAC", -1, EDLIB_MODE_HW, EDLIB_TASK_LOC);
    assert_eq!(r.editDistance, 0);
    assert_eq!(r.endLocations, Some(vec![1, 4, 8]));
    assert_eq!(r.startLocations, Some(vec![0, 3, 7]));
    assert_eq!(r.numLocations, 3);
    assert_eq!(r.alignment, None);
}

#[test]
fn first_start_is_the_earliest() {
    // "AAB" and "AB" both end at position 4 with one error: the earlier start is reported
    let r = align(b"XAB", b"CCAABCC", -1, EDLIB_MODE_HW, EDLIB_TASK_PATH);
    assert_eq!(r.editDistance, 1);
    let ends = r.endLocations.unwrap();
    let starts = r.startLocations.unwrap();
    assert_eq!(ends, vec![4]);
    assert_eq!(starts, vec![2]);
    assert_eq!(r.alignment, Some(vec![EDLIB_EDOP_MISMATCH, EDLIB_EDOP_MATCH, EDLIB_EDOP_MATCH]));
}

#[test]
fn declared_equalities_match_without_chains() {
    let pairs = vec![EdlibEqualityPairRs::new(b'a', b'A'), EdlibEqualityPairRs::new(b'A', b'x')];
    let config = EdlibAlignConfigRs::new(-1, EDLIB_MODE_NW, EDLIB_TASK_PATH, pairs);
    let r = edlibAlignRs(b"a", b"A", &config);
    assert_eq!(r.editDistance, 0);
    assert_eq!(r.alignment, Some(vec![EDLIB_EDOP_MATCH]));
    let r = edlibAlignRs(b"A", b"a", &config);
    assert_eq!(r.editDistance, 0);
    let r = edlibAlignRs(b"x", b"A", &config);
    assert_eq!(r.editDistance, 0);
    // a matches A and A matches x, but a does not match x
    let r = edlibAlignRs(b"a", b"x", &config);
    assert_eq!(r.editDistance, 1);
    assert_eq!(r.alignment, Some(vec![EDLIB_EDOP_MISMATCH]));
    // a pair of symbols that do not occur changes nothing
    let r = edlibAlignRs(b"bb", b"bc", &config);
    assert_eq!(r.editDistance, 1);
    let plain = EdlibAlignConfigRs::default();
    assert_eq!(edlibAlignRs(b"a", b"A", &plain).editDistance, 1);
}

#[test]
fn wildcard_symbol() {
    let pairs: Vec<EdlibEqualityPairRs> =
        b"ACGT".iter().map(|c| EdlibEqualityPairRs::new(b'N', *c)).collect();
    let config = EdlibAlignConfigRs::new(-1, EDLIB_MODE_HW, EDLIB_TASK_LOC, pairs);
    let r = edlibAlignRs(b"ANNT", b"GGACGTGG", &config);
    assert_eq!(r.editDistance, 0);
    assert_eq!(r.endLocations, Some(vec![5]));
    assert_eq!(r.startLocations, Some(vec![2]));
    assert_eq!(r.alphabetLength, 5);
}

#[test]
fn every_byte_fits_the_alphabet() {
    let q: Vec<u8> = (0..=255u8).collect();
    let mut t = q.clone();
    t.reverse();
    let r = align(&q, &t, -1, EDLIB_MODE_NW, EDLIB_TASK_DISTANCE);
    assert_eq!(r.status, EDLIB_STATUS_OK);
    assert_eq!(r.alphabetLength, 256);
    assert_eq!(r.editDistance, 256);
    let r = align(&q, &q, 0, EDLIB_MODE_NW, EDLIB_TASK_DISTANCE);
    assert_eq!(r.editDistance, 0);
}

#[test]
fn defaults() {
    let c = EdlibAlignConfigRs::default();
    assert_eq!(c.k, -1);
    assert_eq!(c.mode, EDLIB_MODE_NW);
    assert_eq!(c.task, EDLIB_TASK_DISTANCE);
    assert!(c.additionalequalities.is_empty());
    let r = EdlibAlignResultRs::default();
    assert_eq!(r.status, EDLIB_STATUS_OK);
    assert_eq!(r.editDistance, 0);
    assert_eq!(r.endLocations, None);
    assert_eq!(r.startLocations, None);
    assert_eq!(r.numLocations, 0);
    assert_eq!(r.alignment, None);
    assert_eq!(r.alignmentLength, 0);
    assert_eq!(r.alphabetLength, 0);
}

#[test]
fn codes_of_the_variants() {
    for code in 0..6u32 {
        match EdlibAlignModeRs::from_code(code) {
            Some(m) => assert_eq!(m.code(), code),
            None => assert!(code > 2),
        }
        match EdlibAlignTaskRs::from_code(code) {
            Some(t) => assert_eq!(t.code(), code),
            None => assert!(code > 2),
        }
        match EdlibCigarFormatRs::from_code(code) {
            Some(f) => assert_eq!(f.code(), code),
            None => assert!(code > 1),
        }
        match EdlibEdopRs::from_code(code as u8) {
            Some(op) => assert_eq!(op.code(), code as u8),
            None => assert!(code > 3),
        }
    }
    assert_eq!(EdlibAlignModeRs::from_code(2), Some(EDLIB_MODE_HW));
    assert_eq!(EdlibAlignTaskRs::from_code(1), Some(EDLIB_TASK_LOC));
    assert_eq!(EdlibEdopRs::from_code(1), Some(EDLIB_EDOP_INSERT));
    assert_eq!(EdlibEdopRs::from_code(2), Some(EDLIB_EDOP_DELETE));
    assert_eq!(EdlibEdopRs::from_code(3), Some(EDLIB_EDOP_MISMATCH));
    assert_eq!(EdlibCigarFormatRs::from_code(1), Some(EdlibCigarFormatRs::EDLIB_CIGAR_EXTENDED));
}

#[test]
fn cigar_of_a_path() {
    let path = vec![
        EDLIB_EDOP_MATCH,
        EDLIB_EDOP_MATCH,
        EDLIB_EDOP_MISMATCH,
        EDLIB_EDOP_INSERT,
        EDLIB_EDOP_INSERT,
        EDLIB_EDOP_DELETE,
        EDLIB_EDOP_MATCH,
    ];
    let standard = edlibAlignmentToCigarRs(&path, &EdlibCigarFormatRs::EDLIB_CIGAR_STANDARD);
    assert_eq!(standard, "3M2I1D1M");
    let extended = edlibAlignmentToCigarRs(&path, &EdlibCigarFormatRs::EDLIB_CIGAR_EXTENDED);
    assert_eq!(extended, "2=1X2I1D1=");
    assert_eq!(edlibAlignmentToCigarRs(&[], &EdlibCigarFormatRs::EDLIB_CIGAR_STANDARD), "");
    let long = vec![EDLIB_EDOP_MATCH; 1234];
    assert_eq!(edlibAlignmentToCigarRs(&long, &EdlibCigarFormatRs::EDLIB_CIGAR_EXTENDED), "1234=");
    let ten = vec![EDLIB_EDOP_DELETE; 10];
    assert_eq!(edlibAlignmentToCigarRs(&ten, &EdlibCigarFormatRs::EDLIB_CIGAR_STANDARD), "10D");
}

#[test]
fn cigar_decodes_to_the_path() {
    for seed in 0..40u64 {
        let codes = sequence((seed % 10) as usize * 7, seed, &[0, 0, 0, 1, 2, 3]);
        let path: Vec<EdlibEdopRs> =
            codes.iter().map(|c| EdlibEdopRs::from_code(*c).unwrap()).collect();
        let extended = edlibAlignmentToCigarRs(&path, &EdlibCigarFormatRs::EDLIB_CIGAR_EXTENDED);
        assert_eq!(edlibCigarToAlignmentRs(&extended), Some(path.clone()));
        let standard = edlibAlignmentToCigarRs(&path, &EdlibCigarFormatRs::EDLIB_CIGAR_STANDARD);
        let merged: Vec<EdlibEdopRs> = path
            .iter()
            .map(|op| if *op == EDLIB_EDOP_MISMATCH { EDLIB_EDOP_MATCH } else { *op })
            .collect();
        assert_eq!(edlibCigarToAlignmentRs(&standard), Some(merged));
        // the counts of the runs add up to the length of the path
        let mut sum = 0usize;
        let mut count = 0usize;
        for c in standard.bytes() {
            if c.is_ascii_digit() {
                count = count * 10 + (c - b'0') as usize;
            } else {
                sum += count;
                count = 0;
            }
        }
        assert_eq!(sum, path.len());
    }
}

#[test]
fn cigar_texts_that_stand_for_nothing() {
    assert_eq!(edlibCigarToAlignmentRs(""), Some(vec![]));
    assert_eq!(edlibCigarToAlignmentRs("0M"), Some(vec![]));
    assert_eq!(edlibCigarToAlignmentRs("02I"), Some(vec![EDLIB_EDOP_INSERT; 2]));
    assert_eq!(edlibCigarToAlignmentRs("M"), None);
    assert_eq!(edlibCigarToAlignmentRs("3"), None);
    assert_eq!(edlibCigarToAlignmentRs("3M2"), None);
    assert_eq!(edlibCigarToAlignmentRs("3Q"), None);
    assert_eq!(edlibCigarToAlignmentRs("3M 2I"), None);
    assert_eq!(edlibCigarToAlignmentRs("3\u{e9}"), None);
    assert_eq!(edlibCigarToAlignmentRs("99999999999999999999999M"), None);
    assert_eq!(edlibCigarToAlignmentRs("4294967296M"), None);
}

#[test]
fn preparing_the_sequences() {
    let a = prepare(b"banana", b"bandana", &[]).unwrap();
    assert_eq!(a.len(), 4);
    assert_eq!(a.id(b'b'), Some(0));
    assert_eq!(a.id(b'a'), Some(1));
    assert_eq!(a.id(b'n'), Some(2));
    assert_eq!(a.id(b'd'), Some(3));
    assert_eq!(a.id(b'x'), None);
    assert_eq!(a.encode(b"dab"), vec![3, 1, 0]);
    assert!(a.matches(2, 2));
    assert!(!a.matches(2, 3));
    let pairs = [EdlibEqualityPairRs::new(b'n', b'd')];
    let a = prepare(b"banana", b"bandana", &pairs).unwrap();
    assert!(a.matches(2, 3));
    assert!(a.matches(3, 2));
    assert!(!a.matches(0, 3));
    let long = vec![0u8; 0x8000_0000];
    assert!(matches!(prepare(&long, b"a", &[]), Err(EngineError::SequenceTooLong)));
    assert!(matches!(prepare(b"a", &long, &[]), Err(EngineError::SequenceTooLong)));
    let r = edlibAlignRs(&long, b"a", &EdlibAlignConfigRs::default());
    assert_eq!(r.status, EDLIB_STATUS_ERROR);
    assert_eq!(r.editDistance, -1);
    assert_eq!(r.endLocations, None);
}
