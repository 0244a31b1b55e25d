use std::collections::HashMap;

use smatrix::error::{ParseError, RemapError};
use smatrix::matrix::SMatrix;
use smatrix::smatrix_utils::{channel_map, get_smat_at_f, remap_smat_at_f};

fn rotated_map_text() -> String {
    let mut text = String::new();
    for i in 1..17 {
        text.push_str(&format!("{}, {}\n", i, (i + 3) % 16 + 1));
    }
    text
}

fn full_matrix_text(n: i32) -> String {
    let mut text = String::new();
    for i in 1..(n + 1) {
        for j in 1..(n + 1) {
            text.push_str(&format!("( {} , {} ): {}.5+{}.25j\n", i, j, i, j));
        }
    }
    text
}

#[test]
fn it_works() {
    let ch_hm = channel_map(&rotated_map_text());
    for i in 1..16 {
        let v1 = ch_hm.get(&i).unwrap();
        assert_eq!(*v1, (i + 3) % 16 + 1);
    }
}

#[test]
fn rotated_map_has_sixteen_entries() {
    let ch_hm = channel_map(&rotated_map_text());
    assert_eq!(ch_hm.len(), 16);
    assert_eq!(ch_hm.get(&16), Some(&4));
    assert_eq!(ch_hm.get(&13), Some(&1));
    assert_eq!(ch_hm.get(&17), None);
    assert_eq!(ch_hm.get(&0), None);
}

#[test]
fn swap_of_two_channels_end_to_end() {
    let map = channel_map("1,2\n2,1");
    let matrix =
        get_smat_at_f("( 1 , 1 ): A\n( 1 , 2 ): B\n( 2 , 1 ): C\n( 2 , 2 ): D\n").unwrap();
    let out = remap_smat_at_f(map, matrix).unwrap();
    assert_eq!(out, "( 1 , 1 ): D\n( 1 , 2 ): C\n( 2 , 1 ): B\n( 2 , 2 ): A\n");
}

#[test]
fn missing_matrix_entry_fails_without_output() {
    let map = channel_map("1 1\n2 2\n3 3\n4 4");
    let mut text = String::new();
    for i in 1..5 {
        for j in 1..5 {
            if (i, j) != (1, 1) {
                text.push_str(&format!("( {} , {} ): v{}{}\n", i, j, i, j));
            }
        }
    }
    let matrix = get_smat_at_f(&text).unwrap();
    assert!(!matrix.contains(1, 1));
    assert!(matrix.contains(4, 4));
    let r = remap_smat_at_f(map, matrix);
    assert_eq!(r, Err(RemapError::MissingMatrixEntry { row: 1, col: 1 }));
}

#[test]
fn missing_matrix_entry_names_the_original_pair() {
    let map = channel_map("1,2\n2,1");
    let matrix = get_smat_at_f("( 1 , 1 ): A\n( 1 , 2 ): B\n( 2 , 2 ): D\n").unwrap();
    // Cells are written in the order (1,1), (1,2), (2,1), (2,2); the cell
    // (1,2) asks the matrix for (2,1), which is the one that is absent.
    let r = remap_smat_at_f(map, matrix);
    assert_eq!(r, Err(RemapError::MissingMatrixEntry { row: 2, col: 1 }));
}

#[test]
fn missing_mapping_names_the_channel() {
    // Two entries, so channels 1 and 2 are asked for, and 2 is not a key.
    let map = channel_map("1,1\n3,3");
    assert_eq!(map.len(), 2);
    let matrix = get_smat_at_f(&full_matrix_text(3)).unwrap();
    let r = remap_smat_at_f(map, matrix);
    assert_eq!(r, Err(RemapError::MissingMapping { channel: 2 }));
}

#[test]
fn missing_mapping_of_the_row_comes_first() {
    let map = channel_map("2,2\n3,3");
    let matrix = SMatrix::new();
    let r = remap_smat_at_f(map, matrix);
    assert_eq!(r, Err(RemapError::MissingMapping { channel: 1 }));
}

#[test]
fn missing_mapping_is_found_before_missing_matrix_entry() {
    // Cell (1,1) finds its value; cell (1,2) has no mapping for 2.
    let map = channel_map("1,1\n5,5");
    let matrix = get_smat_at_f("( 1 , 1 ): x").unwrap();
    assert_eq!(
        remap_smat_at_f(map, matrix),
        Err(RemapError::MissingMapping { channel: 2 })
    );
    // Cell (1,1) itself has no value.
    let map = channel_map("1,1\n5,5");
    assert_eq!(
        remap_smat_at_f(map, SMatrix::new()),
        Err(RemapError::MissingMatrixEntry { row: 1, col: 1 })
    );
}

#[test]
fn empty_map_gives_empty_output() {
    let map = channel_map("");
    assert!(map.is_empty());
    let matrix = get_smat_at_f(&full_matrix_text(2)).unwrap();
    assert_eq!(remap_smat_at_f(map, matrix), Ok(String::new()));
}

#[test]
fn identity_map_reproduces_the_matrix_text() {
    let text = full_matrix_text(3);
    let map = channel_map("1,1\n2,2\n3,3");
    let matrix = get_smat_at_f(&text).unwrap();
    assert_eq!(remap_smat_at_f(map, matrix), Ok(text));
}

#[test]
fn map_and_its_inverse_restore_every_value() {
    let n = 5;
    let text = full_matrix_text(n);
    let forward = "1,3\n2,5\n3,1\n4,2\n5,4";
    let backward = "3,1\n5,2\n1,3\n2,4\n4,5";
    let once = remap_smat_at_f(channel_map(forward), get_smat_at_f(&text).unwrap())
        .unwrap();
    assert_ne!(once, text);
    let twice = remap_smat_at_f(channel_map(backward), get_smat_at_f(&once).unwrap())
        .unwrap();
    assert_eq!(twice, text);
    let original = get_smat_at_f(&text).unwrap();
    let restored = get_smat_at_f(&twice).unwrap();
    for i in 1..(n + 1) {
        for j in 1..(n + 1) {
            assert_eq!(restored.get(i, j), original.get(i, j));
            assert!(restored.get(i, j).is_some());
        }
    }
}

#[test]
fn remap_uses_the_map_from_new_to_original() {
    // New channel 1 shows original channel 2, new 2 shows 3, new 3 shows 1.
    let map = channel_map("1,2\n2,3\n3,1");
    let matrix = get_smat_at_f(&full_matrix_text(3)).unwrap();
    let out = remap_smat_at_f(map, matrix).unwrap();
    let lines: Vec<&str> = out.split('\n').collect();
    assert_eq!(lines.len(), 10);
    assert_eq!(lines[0], "( 1 , 1 ): 2.5+2.25j");
    assert_eq!(lines[1], "( 1 , 2 ): 2.5+3.25j");
    assert_eq!(lines[2], "( 1 , 3 ): 2.5+1.25j");
    assert_eq!(lines[5], "( 2 , 3 ): 3.5+1.25j");
    assert_eq!(lines[8], "( 3 , 3 ): 1.5+1.25j");
    assert_eq!(lines[9], "");
}

#[test]
fn map_that_is_no_permutation_is_still_applied() {
    let map = channel_map("1,2\n2,2");
    let matrix = get_smat_at_f("( 2 , 2 ): only").unwrap();
    assert_eq!(
        remap_smat_at_f(map, matrix),
        Ok("( 1 , 1 ): only\n( 1 , 2 ): only\n( 2 , 1 ): only\n( 2 , 2 ): only\n".to_string())
    );
}

#[test]
fn ten_channels_write_two_digit_numbers() {
    let mut map_text = String::new();
    for i in 1..11 {
        map_text.push_str(&format!("{} {}\n", i, 11 - i));
    }
    let map = channel_map(&map_text);
    let matrix = get_smat_at_f(&full_matrix_text(10)).unwrap();
    let out = remap_smat_at_f(map, matrix).unwrap();
    let lines: Vec<&str> = out.split('\n').collect();
    assert_eq!(lines.len(), 101);
    assert_eq!(lines[0], "( 1 , 1 ): 10.5+10.25j");
    assert_eq!(lines[9], "( 1 , 10 ): 10.5+1.25j");
    assert_eq!(lines[99], "( 10 , 10 ): 1.5+1.25j");
}

#[test]
fn channel_map_skips_lines_that_do_not_match() {
    let plain = channel_map("1,2\n2,3\n3,1");
    let noisy = channel_map("# header\n1,2\nnot a line\n\n2,3\n( 1 , a): x\n3,1\n");
    assert_eq!(plain, noisy);
    let mut expected: HashMap<i32, i32> = HashMap::new();
    expected.insert(1, 2);
    expected.insert(2, 3);
    expected.insert(3, 1);
    assert_eq!(noisy, expected);
}

#[test]
fn channel_map_line_shapes() {
    let map = channel_map("  3, 7\n4 ,,  , 8\n5,6 \n6;7\n7,8,9\n 8\n,9,1\n0012,0034\n1\t2");
    let mut expected: HashMap<i32, i32> = HashMap::new();
    expected.insert(3, 7);
    expected.insert(4, 8);
    expected.insert(12, 34);
    assert_eq!(map, expected);
}

#[test]
fn channel_map_later_line_wins() {
    let map = channel_map("1,2\n1,5\n2,2\n1,9");
    assert_eq!(map.len(), 2);
    assert_eq!(map.get(&1), Some(&9));
    assert_eq!(map.get(&2), Some(&2));
}

#[test]
fn channel_map_with_carriage_returns_matches_only_the_last_line() {
    let map = channel_map("1,2\r\n2,1\r\n3,3");
    assert_eq!(map.len(), 1);
    assert_eq!(map.get(&3), Some(&3));
}

#[test]
fn channel_map_passes_over_numbers_that_do_not_fit() {
    let map = channel_map("1,2\nskip\n3,2147483648\n4,99999999999\n2147483648,1\n5,6");
    let mut expected: HashMap<i32, i32> = HashMap::new();
    expected.insert(1, 2);
    expected.insert(5, 6);
    assert_eq!(map, expected);
    let map = channel_map("2147483647,0002147483647");
    assert_eq!(map.get(&2147483647), Some(&2147483647));
    assert_eq!(map.len(), 1);
}

#[test]
fn matrix_skips_lines_that_do_not_match() {
    let text = "header\n( 1 , 1 ): A\nnot a line\n\n( 1 , a): x\n( 1 , 2 ): B\n(1,1): Z\n";
    let matrix = get_smat_at_f(text).unwrap();
    assert_eq!(matrix.get(1, 1), Some(&"A".to_string()));
    assert_eq!(matrix.get(1, 2), Some(&"B".to_string()));
    assert_eq!(matrix.get(2, 1), None);
    assert!(!matrix.contains(2, 2));
}

#[test]
fn matrix_number_too_large_fails_the_whole_parse() {
    let text = "( 1 , 1 ): A\n\n( 1 , 99999999999 ): x\n( 1 , 2 ): B\n";
    assert!(matches!(
        get_smat_at_f(text),
        Err(ParseError::MalformedNumericLiteral { line: 2 })
    ));
    assert!(matches!(
        get_smat_at_f("( 2147483648 , 1 ): x\n( 1 , 2147483648 ): y"),
        Err(ParseError::MalformedNumericLiteral { line: 0 })
    ));
    let matrix = get_smat_at_f("( 2147483647 , 0 ): edge").unwrap();
    assert_eq!(matrix.get(2147483647, 0), Some(&"edge".to_string()));
}

#[test]
fn matrix_value_is_kept_verbatim() {
    let text = "( 1 , 1 ):  two spaces \n( 1 , 2 ): \n( 2 , 1 ): 0.95+0.01j\r\n( 2 , 2 ): a: b ( 3 , 4 ): c";
    let matrix = get_smat_at_f(text).unwrap();
    assert_eq!(matrix.get(1, 1), Some(&" two spaces ".to_string()));
    assert_eq!(matrix.get(1, 2), Some(&"".to_string()));
    assert_eq!(matrix.get(2, 1), Some(&"0.95+0.01j\r".to_string()));
    assert_eq!(matrix.get(2, 2), Some(&"a: b ( 3 , 4 ): c".to_string()));
}

#[test]
fn matrix_line_needs_the_exact_spacing() {
    let text = "( 1 , 1 ):A\n(  1 , 2 ): B\n( 1  , 3 ): C\n( 1 ,4 ): D\n ( 1 , 5 ): E\n( 1 , 6 ) : F\n( , 7 ): G\n( 1 , 8 ): H";
    let matrix = get_smat_at_f(text).unwrap();
    for j in 1..8 {
        assert!(!matrix.contains(1, j));
    }
    assert_eq!(matrix.get(1, 8), Some(&"H".to_string()));
}

#[test]
fn matrix_later_line_wins() {
    let matrix = get_smat_at_f("( 1 , 1 ): old\n( 1 , 1 ): new").unwrap();
    assert_eq!(matrix.get(1, 1), Some(&"new".to_string()));
}

#[test]
fn matrix_value_outside_ascii() {
    let matrix = get_smat_at_f("( 1 , 1 ): 0.5\u{2220}30\u{b0}").unwrap();
    assert_eq!(matrix.get(1, 1), Some(&"0.5\u{2220}30\u{b0}".to_string()));
    let map = channel_map("1,1");
    assert_eq!(
        remap_smat_at_f(map, matrix),
        Ok("( 1 , 1 ): 0.5\u{2220}30\u{b0}\n".to_string())
    );
}

#[test]
fn matrix_insert_get_contains() {
    let mut matrix = SMatrix::new();
    assert!(!matrix.contains(0, 0));
    matrix.insert(1, 2, "a".to_string());
    matrix.insert(2, 1, "b".to_string());
    matrix.insert(-1, -2, "c".to_string());
    matrix.insert(i32::MIN, i32::MAX, "d".to_string());
    matrix.insert(i32::MAX, i32::MIN, "e".to_string());
    matrix.insert(1, 2, "f".to_string());
    assert_eq!(matrix.get(1, 2), Some(&"f".to_string()));
    assert_eq!(matrix.get(2, 1), Some(&"b".to_string()));
    assert_eq!(matrix.get(-1, -2), Some(&"c".to_string()));
    assert_eq!(matrix.get(i32::MIN, i32::MAX), Some(&"d".to_string()));
    assert_eq!(matrix.get(i32::MAX, i32::MIN), Some(&"e".to_string()));
    assert_eq!(matrix.get(-2, -1), None);
    assert_eq!(matrix.get(0, 0), None);
    assert!(matrix.contains(2, 1));
    assert!(!matrix.contains(2, 2));
}

#[test]
fn remap_with_hand_built_values() {
    let mut map: HashMap<i32, i32> = HashMap::new();
    map.insert(1, -7);
    let mut matrix = SMatrix::new();
    matrix.insert(-7, -7, "negative".to_string());
    assert_eq!(
        remap_smat_at_f(map, matrix),
        Ok("( 1 , 1 ): negative\n".to_string())
    );
}

#[test]
fn matrix_len_counts_cells() {
    let mut matrix = SMatrix::new();
    assert!(matrix.is_empty());
    assert_eq!(matrix.len(), 0);
    matrix.insert(1, 2, "a".to_string());
    matrix.insert(2, 1, "b".to_string());
    assert_eq!(matrix.len(), 2);
    matrix.insert(1, 2, "c".to_string());
    assert_eq!(matrix.len(), 2);
    assert!(!matrix.is_empty());
    let parsed = get_smat_at_f(&full_matrix_text(4)).unwrap();
    assert_eq!(parsed.len(), 16);
}

#[test]
fn matrix_clone_holds_the_same_cells() {
    let matrix = get_smat_at_f(&full_matrix_text(3)).unwrap();
    let mut copy = matrix.clone();
    assert_eq!(copy.len(), 9);
    for i in 1..4 {
        for j in 1..4 {
            assert_eq!(copy.get(i, j), matrix.get(i, j));
        }
    }
    copy.insert(1, 1, "changed".to_string());
    assert_eq!(matrix.get(1, 1), Some(&"1.5+1.25j".to_string()));
    assert_eq!(copy.get(1, 1), Some(&"changed".to_string()));
}

#[test]
fn a_line_that_does_not_match_can_stand_anywhere() {
    let lines = ["1,2", "2,3", "3,1"];
    let plain = channel_map(&lines.join("\n"));
    for extra in ["", "not a line", "( 1 , a): x", "1,2,3", "4,99999999999"] {
        for at in 0..4 {
            let mut with: Vec<&str> = lines.to_vec();
            with.insert(at, extra);
            assert_eq!(channel_map(&with.join("\n")), plain, "{:?} at {}", extra, at);
        }
    }
    let cells = ["( 1 , 1 ): A", "( 1 , 2 ): B", "( 2 , 1 ): C"];
    let plain = get_smat_at_f(&cells.join("\n")).unwrap();
    for extra in ["", "not a line", "( 1 , a): x", "1,2", "( 1 , 1 ):Z"] {
        for at in 0..4 {
            let mut with: Vec<&str> = cells.to_vec();
            with.insert(at, extra);
            let parsed = get_smat_at_f(&with.join("\n")).unwrap();
            assert_eq!(parsed.len(), plain.len());
            for i in 1..3 {
                for j in 1..3 {
                    assert_eq!(parsed.get(i, j), plain.get(i, j));
                }
            }
        }
    }
}

#[test]
fn a_malformed_matrix_line_fails_the_parse_wherever_it_stands() {
    let cells = ["( 1 , 1 ): A", "header", "( 1 , 2 ): B"];
    for at in 0..4 {
        let mut with: Vec<&str> = cells.to_vec();
        with.insert(at, "( 1 , 4294967296 ): x");
        assert!(matches!(
            get_smat_at_f(&with.join("\n")),
            Err(ParseError::MalformedNumericLiteral { line }) if line == at
        ));
    }
}

#[test]
fn a_value_with_a_newline_does_not_come_back() {
    let mut matrix = SMatrix::new();
    matrix.insert(1, 1, "a\nb".to_string());
    let out = remap_smat_at_f(channel_map("1,1"), matrix).unwrap();
    assert_eq!(out, "( 1 , 1 ): a\nb\n");
    let back = get_smat_at_f(&out).unwrap();
    assert_eq!(back.get(1, 1), Some(&"a".to_string()));
}

#[test]
fn identity_remap_drops_cells_outside_the_grid() {
    let mut matrix = get_smat_at_f(&full_matrix_text(2)).unwrap();
    matrix.insert(5, 5, "outside".to_string());
    let out = remap_smat_at_f(channel_map("1,1\n2,2"), matrix).unwrap();
    assert_eq!(out, full_matrix_text(2));
}
