use brainfrick::interpreter::{create_byte_cells, find_matching_braces, process_commands, Error};
use brainfrick::utils::reverse_hash_map;
use std::collections::HashMap;

fn table(pairs: &[(usize, usize)]) -> HashMap<usize, usize> {
    let mut map = HashMap::new();
    for (open, close) in pairs {
        map.insert(*open, *close);
    }
    map
}

#[test]
fn empty_text_has_an_empty_table() {
    let result = find_matching_braces(&String::new());
    assert_eq!(result, Ok(HashMap::new()));
}

#[test]
fn text_without_markers_has_an_empty_table() {
    let result = find_matching_braces(&String::from("+-<>.,hello"));
    assert_eq!(result, Ok(HashMap::new()));
}

#[test]
fn one_loop_is_one_pair() {
    let result = find_matching_braces(&String::from("[]"));
    assert_eq!(result, Ok(table(&[(0, 1)])));
}

#[test]
fn nested_loops_pair_inside_out() {
    let result = find_matching_braces(&String::from("[[]]"));
    assert_eq!(result, Ok(table(&[(0, 3), (1, 2)])));
}

#[test]
fn loops_side_by_side_pair_each_with_its_own() {
    let result = find_matching_braces(&String::from("+[-]>[<[+]>]"));
    assert_eq!(result, Ok(table(&[(1, 3), (5, 11), (7, 9)])));
}

#[test]
fn positions_are_byte_offsets() {
    // The first character takes two bytes.
    let result = find_matching_braces(&String::from("\u{e9}[]"));
    assert_eq!(result, Ok(table(&[(2, 3)])));
    let result = find_matching_braces(&String::from("\u{e9}["));
    assert_eq!(result, Err(Error::UnclosedOpenMarker { position: 2 }));
}

#[test]
fn only_close_markers_fail_on_the_first() {
    let result = find_matching_braces(&String::from("]]]"));
    assert_eq!(result, Err(Error::StrayCloseMarker { position: 0 }));
}

#[test]
fn stray_close_marker_is_reported_where_it_stands() {
    let result = find_matching_braces(&String::from("[]]"));
    assert_eq!(result, Err(Error::StrayCloseMarker { position: 2 }));
    let result = find_matching_braces(&String::from("++[-]+]+[]]"));
    assert_eq!(result, Err(Error::StrayCloseMarker { position: 6 }));
}

#[test]
fn stray_close_marker_wins_over_a_later_unclosed_one() {
    let result = find_matching_braces(&String::from("[]]["));
    assert_eq!(result, Err(Error::StrayCloseMarker { position: 2 }));
}

#[test]
fn only_open_markers_report_the_first() {
    let result = find_matching_braces(&String::from("[[["));
    assert_eq!(result, Err(Error::UnclosedOpenMarker { position: 0 }));
}

#[test]
fn unclosed_marker_is_the_outermost_one() {
    let result = find_matching_braces(&String::from("[[]"));
    assert_eq!(result, Err(Error::UnclosedOpenMarker { position: 0 }));
    let result = find_matching_braces(&String::from("[[]["));
    assert_eq!(result, Err(Error::UnclosedOpenMarker { position: 0 }));
}

#[test]
fn closed_loops_to_the_left_are_not_reported() {
    let result = find_matching_braces(&String::from("[][["));
    assert_eq!(result, Err(Error::UnclosedOpenMarker { position: 2 }));
    let result = find_matching_braces(&String::from("[[]][+[-]"));
    assert_eq!(result, Err(Error::UnclosedOpenMarker { position: 4 }));
}

#[test]
fn jump_table_and_its_reverse_undo_each_other() {
    let text = String::from("[[][[]]]+[>[-]<]");
    let close_of = find_matching_braces(&text).unwrap();
    let open_of = reverse_hash_map(&close_of);
    assert_eq!(close_of.len(), 6);
    assert_eq!(open_of.len(), 6);
    for (open, close) in close_of.iter() {
        assert_eq!(open_of[close], *open);
        assert_eq!(close_of[&open_of[close]], *close);
        assert_eq!(text.as_bytes()[*open], b'[');
        assert_eq!(text.as_bytes()[*close], b']');
    }
    for (close, open) in open_of.iter() {
        assert_eq!(close_of[open], *close);
        assert_eq!(open_of[&close_of[open]], *open);
    }
}

#[test]
fn reverse_of_an_empty_map_is_empty() {
    let map: HashMap<u8, u16> = HashMap::new();
    assert_eq!(reverse_hash_map(&map), HashMap::new());
}

#[test]
fn reverse_swaps_keys_and_values() {
    let mut map: HashMap<u8, char> = HashMap::new();
    map.insert(1, 'a');
    map.insert(2, 'b');
    map.insert(3, 'c');
    let mut expected: HashMap<char, u8> = HashMap::new();
    expected.insert('a', 1);
    expected.insert('b', 2);
    expected.insert('c', 3);
    assert_eq!(reverse_hash_map(&map), expected);
}

#[test]
fn reverse_of_a_map_with_a_shared_value_keeps_one_of_its_keys() {
    let mut map: HashMap<u8, u8> = HashMap::new();
    map.insert(1, 9);
    map.insert(2, 9);
    map.insert(3, 7);
    let reversed = reverse_hash_map(&map);
    assert_eq!(reversed.len(), 2);
    assert_eq!(reversed[&7], 3);
    assert!(reversed[&9] == 1 || reversed[&9] == 2);
}

#[test]
fn malformed_program_is_refused_before_anything_runs() {
    let mut byte_cells = create_byte_cells();
    let result = process_commands(&mut byte_cells, String::from("+++]"), u64::MAX);
    assert_eq!(result, Err(Error::StrayCloseMarker { position: 3 }));
    assert_eq!(byte_cells[0], 0);

    let result = process_commands(&mut byte_cells, String::from("+[+[-]"), u64::MAX);
    assert_eq!(result, Err(Error::UnclosedOpenMarker { position: 1 }));
    assert_eq!(byte_cells[0], 0);
}
