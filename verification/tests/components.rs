use edlib_rs::alphabet::Alphabet;
use edlib_rs::bits::{test_bit, with_bit};
use edlib_rs::bitvector::advance_block;
use edlib_rs::cigar::letter;
use edlib_rs::edlib::EdlibEdopRs::{
    EDLIB_EDOP_DELETE, EDLIB_EDOP_INSERT, EDLIB_EDOP_MATCH, EDLIB_EDOP_MISMATCH,
};
use edlib_rs::edlib::{EdlibAlignModeRs, EdlibCigarFormatRs, EdlibEdopRs, EdlibEqualityPairRs};
use edlib_rs::engine::column_costs;
use edlib_rs::locate::{least_entry, positions_of_value};
use edlib_rs::profile::QueryProfile;
use edlib_rs::search::{bounded_search, reversed_prefix, search, start_locations_for};
use edlib_rs::traceback::alignment_path;

fn plain_row(q: &[u8], t: &[u8], free_start: bool) -> Vec<usize> {
    let mut prev: Vec<usize> = (0..=t.len()).map(|j| if free_start { 0 } else { j }).collect();
    for i in 1..=q.len() {
        let mut cur = vec![i; t.len() + 1];
        for j in 1..=t.len() {
            let diag = prev[j - 1] + if q[i - 1] == t[j - 1] { 0 } else { 1 };
            cur[j] = diag.min(prev[j] + 1).min(cur[j - 1] + 1);
        }
        prev = cur;
    }
    prev[1..].to_vec()
}

fn letters(len: usize, seed: u64) -> Vec<u8> {
    let mut state = seed.wrapping_mul(0x9e3779b97f4a7c15).wrapping_add(12345);
    (0..len)
        .map(|_| {
            state = state.wrapping_mul(6364136223846793005).wrapping_add(1442695040888963407);
            b"ACGT"[(state >> 40) as usize % 4]
        })
        .collect()
}

#[test]
fn bits_of_a_word() {
    assert!(test_bit(1, 0));
    assert!(!test_bit(1, 1));
    assert!(test_bit(0x8000_0000_0000_0000, 63));
    assert_eq!(with_bit(0, 5), 32);
    assert_eq!(with_bit(32, 5), 32);
    assert_eq!(with_bit(1, 63), 0x8000_0000_0000_0001);
}

#[test]
fn one_block_step() {
    // the first column of "AB" against the symbol "A": cells 1, 2 become 0, 1
    let out = advance_block(!0, 0, 0b01, 1);
    assert!(!test_bit(out.pv, 0) && test_bit(out.mv, 0));
    assert!(test_bit(out.pv, 1) && !test_bit(out.mv, 1));
    assert!(!test_bit(out.ph, 0) && test_bit(out.mh, 0));
    assert!(!test_bit(out.ph, 1) && test_bit(out.mh, 1));
    // against a symbol that matches nowhere every cell stays: 1, 2, ...
    let out = advance_block(!0, 0, 0, 1);
    assert_eq!(out.mv, 0);
    assert_eq!(out.mh, 0);
    assert!(!test_bit(out.pv, 0) && test_bit(out.pv, 1) && test_bit(out.pv, 63));
    assert!(!test_bit(out.ph, 0) && !test_bit(out.ph, 63));
    // with a free start the first cell is one above the free row
    let out = advance_block(!0, 0, 0, 0);
    assert_eq!(out.pv, !0);
    assert_eq!(out.mv, 0);
    assert_eq!(out.ph, 0);
    assert_eq!(out.mh, 0);
}

#[test]
fn profile_of_a_query() {
    let q = letters(130, 3);
    let a = Alphabet::new(&q, b"", &[]).unwrap();
    let p = QueryProfile::new(&a, &q);
    assert_eq!(p.len(), 130);
    assert_eq!(p.blocks(&a), 3);
    for s in 0..a.len() as u8 {
        for b in 0..3usize {
            let w = p.word(&a, s, b);
            for r in 0..64usize {
                let pos = 64 * b + r;
                let want = pos < q.len() && a.id(q[pos]) == Some(s);
                assert_eq!(test_bit(w, r), want);
            }
        }
    }
}

#[test]
fn last_row_of_a_bounded_search() {
    for seed in 0..30u64 {
        let m = [1usize, 7, 64, 65, 129, 200][(seed % 6) as usize];
        let n = [1usize, 30, 64, 150, 260][(seed % 5) as usize];
        let q = letters(m, seed);
        let t = letters(n, seed + 50);
        let a = Alphabet::new(&q, &t, &[]).unwrap();
        let p = QueryProfile::new(&a, &q);
        for free in [false, true] {
            let plain = plain_row(&q, &t, free);
            for k in [0usize, 1, 3, 17, 63, 64, 65, 128, 300] {
                let costs = column_costs(&a, &p, &t, free, k);
                let want: Vec<usize> = plain.iter().map(|v| (*v).min(k + 1)).collect();
                assert_eq!(costs, want);
            }
        }
    }
}

#[test]
fn last_row_of_an_empty_query() {
    let a = Alphabet::new(b"", b"ACGT", &[]).unwrap();
    let p = QueryProfile::new(&a, b"");
    assert_eq!(column_costs(&a, &p, b"ACGT", false, 2), vec![1, 2, 3, 3]);
    assert_eq!(column_costs(&a, &p, b"ACGT", true, 2), vec![0, 0, 0, 0]);
    assert_eq!(column_costs(&a, &p, b"", true, 2), Vec::<usize>::new());
}

#[test]
fn least_and_positions() {
    assert_eq!(least_entry(&vec![4, 2, 7, 2, 9]), 2);
    assert_eq!(least_entry(&vec![5]), 5);
    assert_eq!(positions_of_value(&vec![4, 2, 7, 2, 9], 2), vec![1, 3]);
    assert_eq!(positions_of_value(&vec![4, 2, 7, 2, 9], 3), Vec::<i32>::new());
    assert_eq!(positions_of_value(&vec![], 3), Vec::<i32>::new());
}

#[test]
fn bounded_and_unbounded_search() {
    let q = b"ACGTTGCA";
    let t = b"TTACGATGCATT";
    let a = Alphabet::new(q, t, &[]).unwrap();
    let p = QueryProfile::new(&a, q);
    assert_eq!(bounded_search(&a, &p, t, EdlibAlignModeRs::EDLIB_MODE_HW, 0), None);
    assert_eq!(bounded_search(&a, &p, t, EdlibAlignModeRs::EDLIB_MODE_HW, 1), Some((1, vec![9])));
    assert_eq!(search(&a, &p, t, EdlibAlignModeRs::EDLIB_MODE_HW, -1), Some((1, vec![9])));
    assert_eq!(search(&a, &p, t, EdlibAlignModeRs::EDLIB_MODE_NW, -1), Some((5, vec![11])));
    assert_eq!(search(&a, &p, t, EdlibAlignModeRs::EDLIB_MODE_NW, 4), None);
    assert_eq!(search(&a, &p, t, EdlibAlignModeRs::EDLIB_MODE_SHW, -1), Some((3, vec![9])));
    // a distance above the first bound that an unbounded search tries
    let q = vec![b'A'; 300];
    let t = vec![b'C'; 500];
    let a = Alphabet::new(&q, &t, &[]).unwrap();
    let p = QueryProfile::new(&a, &q);
    assert_eq!(search(&a, &p, &t, EdlibAlignModeRs::EDLIB_MODE_NW, -1), Some((500, vec![499])));
    let found = search(&a, &p, &t, EdlibAlignModeRs::EDLIB_MODE_HW, -1).unwrap();
    assert_eq!(found.0, 300);
    assert_eq!(found.1.len(), 500);
}

#[test]
fn reversing_a_prefix() {
    assert_eq!(reversed_prefix(b"ABCDE", 3), b"CBA".to_vec());
    assert_eq!(reversed_prefix(b"ABCDE", 0), Vec::<u8>::new());
    assert_eq!(reversed_prefix(b"ABCDE", 5), b"EDCBA".to_vec());
}

#[test]
fn all_starts_for_an_end() {
    // the windows of "CAABC" that end at position 3, by their distance to "AAB"
    let q = b"AAB";
    let t = b"CAABC";
    let a = Alphabet::new(q, t, &[]).unwrap();
    let back = reversed_prefix(q, 3);
    let reversed = QueryProfile::new(&a, &back);
    assert_eq!(start_locations_for(&a, &reversed, t, 3, 0), vec![1]);
    assert_eq!(start_locations_for(&a, &reversed, t, 3, 1), vec![0, 2]);
    assert_eq!(start_locations_for(&a, &reversed, t, 3, 2), vec![3]);
    assert_eq!(start_locations_for(&a, &reversed, t, 0, 0), Vec::<i32>::new());
}

#[test]
fn path_takes_the_first_step_allowed() {
    let a = Alphabet::new(b"ABCX", b"ABCY", &[EdlibEqualityPairRs::new(b'X', b'Y')]).unwrap();
    assert_eq!(alignment_path(&a, b"ABC", b"ABC"), vec![EDLIB_EDOP_MATCH; 3]);
    assert_eq!(alignment_path(&a, b"X", b"Y"), vec![EDLIB_EDOP_MATCH]);
    assert_eq!(alignment_path(&a, b"A", b"B"), vec![EDLIB_EDOP_MISMATCH]);
    assert_eq!(alignment_path(&a, b"AB", b"B"), vec![EDLIB_EDOP_DELETE, EDLIB_EDOP_MATCH]);
    assert_eq!(alignment_path(&a, b"B", b"AB"), vec![EDLIB_EDOP_INSERT, EDLIB_EDOP_MATCH]);
    assert_eq!(alignment_path(&a, b"", b"AB"), vec![EDLIB_EDOP_INSERT; 2]);
    assert_eq!(alignment_path(&a, b"AB", b""), vec![EDLIB_EDOP_DELETE; 2]);
    // a mismatch is taken before a deletion and an insertion of the same cost
    assert_eq!(
        alignment_path(&a, b"AC", b"BC"),
        vec![EDLIB_EDOP_MISMATCH, EDLIB_EDOP_MATCH]
    );
    assert_eq!(
        alignment_path(&a, b"ABC", b"AC"),
        vec![EDLIB_EDOP_MATCH, EDLIB_EDOP_DELETE, EDLIB_EDOP_MATCH]
    );
}

#[test]
fn letters_of_the_operations() {
    let standard = EdlibCigarFormatRs::EDLIB_CIGAR_STANDARD;
    let extended = EdlibCigarFormatRs::EDLIB_CIGAR_EXTENDED;
    assert_eq!(letter(EdlibEdopRs::EDLIB_EDOP_MATCH, standard), 'M');
    assert_eq!(letter(EdlibEdopRs::EDLIB_EDOP_MISMATCH, standard), 'M');
    assert_eq!(letter(EdlibEdopRs::EDLIB_EDOP_MATCH, extended), '=');
    assert_eq!(letter(EdlibEdopRs::EDLIB_EDOP_MISMATCH, extended), 'X');
    assert_eq!(letter(EdlibEdopRs::EDLIB_EDOP_INSERT, standard), 'I');
    assert_eq!(letter(EdlibEdopRs::EDLIB_EDOP_DELETE, extended), 'D');
}
