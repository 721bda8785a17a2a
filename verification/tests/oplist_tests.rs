use updater_core::oplist::{alist_get, alist_put_vec, expand_for_slot, parse_op_list};

fn bv(s: &str) -> Vec<u8> {
    s.as_bytes().to_vec()
}

fn pair(k: &str, v: &str) -> (Vec<u8>, Vec<u8>) {
    (bv(k), bv(v))
}

#[test]
fn parses_directives_comments_and_blanks() {
    let text = b"\
# a comment line\n\
\n\
add_group qti_dynamic_partitions auto\n\
add system qti_dynamic_partitions   # trailing comment\n\
resize system 2952790016\n\
remove_all_groups\n\
auto_detect_active_slot\n\
unknown_directive ignored here\n";
    let ops = parse_op_list(text);
    assert_eq!(ops.groups, vec![pair("qti_dynamic_partitions", "auto")]);
    assert_eq!(ops.partitions, vec![pair("system", "qti_dynamic_partitions")]);
    assert_eq!(ops.sizes, vec![pair("system", "2952790016")]);
    assert!(ops.remove_all_groups);
    assert!(ops.auto_detect_active_slot);
}

#[test]
fn later_directive_replaces_earlier_value() {
    let text = b"resize system 100\nresize system 200\nresize vendor 300\n";
    let ops = parse_op_list(text);
    assert_eq!(ops.sizes, vec![pair("system", "200"), pair("vendor", "300")]);
}

#[test]
fn short_directive_lines_are_ignored() {
    let text = b"add_group only_name\nadd\nresize x\n";
    let ops = parse_op_list(text);
    assert!(ops.groups.is_empty());
    assert!(ops.partitions.is_empty());
    assert!(ops.sizes.is_empty());
}

#[test]
fn expansion_appends_suffix_everywhere() {
    let text = b"\
add_group qti_dynamic_partitions auto\n\
add system qti_dynamic_partitions\n\
resize system 100\n";
    let ops = parse_op_list(text);
    let expanded = expand_for_slot(&ops, b"_a");
    assert_eq!(expanded.groups, vec![pair("qti_dynamic_partitions_a", "auto")]);
    assert_eq!(
        expanded.partitions,
        vec![pair("system_a", "qti_dynamic_partitions_a")]
    );
    assert_eq!(expanded.sizes, vec![pair("system_a", "100")]);
}

#[test]
fn expansion_with_empty_suffix_changes_nothing() {
    let text = b"add_group g auto\nadd p g\nresize p 5\n";
    let ops = parse_op_list(text);
    let expanded = expand_for_slot(&ops, b"");
    assert_eq!(expanded, parse_op_list(text));
}

#[test]
fn association_vector_lookup_and_update() {
    let m = vec![pair("a", "1"), pair("b", "2")];
    assert_eq!(alist_get(&m, b"b"), Some(&bv("2")));
    assert_eq!(alist_get(&m, b"c"), None);
    let m2 = alist_put_vec(&m, b"a", "9".as_bytes());
    assert_eq!(m2, vec![pair("a", "9"), pair("b", "2")]);
    let m3 = alist_put_vec(&m, b"c", "3".as_bytes());
    assert_eq!(m3, vec![pair("a", "1"), pair("b", "2"), pair("c", "3")]);
}
