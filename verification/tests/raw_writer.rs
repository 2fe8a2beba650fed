use spicy_simulate::raw_writer::build_trace_variables_from_names;
use spicy_simulate::raw_writer::sanitize_filename;
use spicy_simulate::raw_writer::write_variables_with_offset;

#[test]
fn file_names_keep_safe_characters() {
    assert_eq!(sanitize_filename("my circuit-v1.2"), "my_circuit-v1.2");
    assert_eq!(sanitize_filename("a/b\\c:*?"), "abc");
    assert_eq!(sanitize_filename("héllo wörld"), "hllo_wrld");
    assert_eq!(sanitize_filename("!!!"), "spicy");
    assert_eq!(sanitize_filename(""), "spicy");
    assert_eq!(sanitize_filename(" "), "_");
}

#[test]
fn trace_variables_name_nodes_then_sources() {
    let nodes = vec!["in".to_string(), String::new(), "out".to_string()];
    let sources = vec!["V1".to_string(), String::new()];
    let vars = build_trace_variables_from_names(&nodes, &sources);
    assert_eq!(
        vars,
        vec![
            ("V(in)".to_string(), "voltage".to_string()),
            ("V(out)".to_string(), "voltage".to_string()),
            ("I(V1)".to_string(), "device_current".to_string()),
        ]
    );
    assert!(build_trace_variables_from_names(&[], &[]).is_empty());
}

#[test]
fn variable_lines_are_numbered_from_the_offset() {
    let vars = vec![("V(in)".to_string(), "voltage".to_string()), ("I(V1)".to_string(), "device_current".to_string())];
    let mut out = String::from("Variables:\n");
    write_variables_with_offset(&mut out, &vars, 1);
    assert_eq!(out, "Variables:\n\t1\tV(in)\tvoltage\n\t2\tI(V1)\tdevice_current\n");
    let mut out = String::new();
    write_variables_with_offset(&mut out, &vars, 9);
    assert_eq!(out, "\t9\tV(in)\tvoltage\n\t10\tI(V1)\tdevice_current\n");
}
