use strata::profile::{count_functions, folded_line, rank, stack_names, summary_lines};

fn stack(names: &[&str]) -> Vec<String> {
    names.iter().map(|n| n.to_string()).collect()
}

#[test]
fn stacks_from_the_outermost_function_on() {
    let symbols = vec![Some(b"inner".to_vec()), None, Some(vec![0xff]), Some(b"main".to_vec())];
    assert_eq!(stack_names(&symbols), vec!["main", "<unknown>", "<unknown>", "inner"]);
    assert_eq!(stack_names(&vec![]), Vec::<String>::new());
}

#[test]
fn stacks_on_one_line() {
    assert_eq!(folded_line(&stack(&["main", "run", "go"]), 12), "main;run;go 12");
    assert_eq!(folded_line(&stack(&["main"]), 0), "main 0");
    assert_eq!(folded_line(&stack(&[]), 7), " 7");
    assert_eq!(
        folded_line(&stack(&["", ""]), u64::MAX),
        format!("; {}", u64::MAX)
    );
}

#[test]
fn functions_are_counted_each_time_they_stand_in_a_stack() {
    let samples = vec![
        (stack(&["main", "f", "f"]), 3),
        (stack(&["main", "g"]), 4),
        (stack(&["idle"]), 0),
    ];
    let m = count_functions(&samples).unwrap();
    assert_eq!(m.get("main"), Some(&7));
    assert_eq!(m.get("f"), Some(&6));
    assert_eq!(m.get("g"), Some(&4));
    assert_eq!(m.get("idle"), Some(&0));
    assert_eq!(m.len(), 4);
    let ranked = rank(&m);
    assert_eq!(
        ranked,
        vec![
            ("main".to_string(), 7),
            ("f".to_string(), 6),
            ("g".to_string(), 4),
            ("idle".to_string(), 0)
        ]
    );
    assert_eq!(
        summary_lines(&ranked),
        vec![
            format!("{:>8}  function", "samples"),
            "-".repeat(72),
            format!("{:>8}  main", 7),
            format!("{:>8}  f", 6),
            format!("{:>8}  g", 4),
            format!("{:>8}  idle", 0)
        ]
    );
}

#[test]
fn the_summary_has_twenty_rows_at_most() {
    let ranked: Vec<(String, u64)> =
        (0..30u64).map(|i| (format!("f{i}"), 1_000_000_000 - i)).collect();
    let lines = summary_lines(&ranked);
    assert_eq!(lines.len(), 22);
    assert_eq!(lines[2], "1000000000  f0");
    assert_eq!(lines[21], "999999981  f19");
}

#[test]
fn counts_of_a_profile_that_do_not_fit() {
    assert!(count_functions(&vec![(stack(&["f", "f"]), u64::MAX)]).is_none());
    assert!(count_functions(&vec![(stack(&["f", "g"]), u64::MAX)]).is_some());
    assert!(count_functions(&vec![(stack(&["f"]), u64::MAX), (stack(&["f"]), 1)]).is_none());
}
