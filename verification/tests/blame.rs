use strata::blame::{blame_args, parse_blame_output};

const A: &str = "aaaaaaaaaaaaaaaaaaaaaaaaaaaaaaaaaaaaaaaa";
const B: &str = "bbbbbbbbbbbbbbbbbbbbbbbbbbbbbbbbbbbbbbbb";

fn pair(ts: i64, author: &str) -> (i64, String) {
    (ts, author.to_string())
}

#[test]
fn metadata_is_given_once_per_commit() {
    let out = format!(
        "{A} 1 1 2\nauthor Ann\nauthor-mail <ann@x>\nauthor-time 100\nauthor-tz +0000\n\
         committer Cid\ncommitter-time 999\nsummary first\nfilename f\n\tone\n{A} 2 2\n\ttwo\n\
         {B} 1 3 1\nauthor Bob\nauthor-time 200\n\tthree\n{A} 3 4 1\n\tfour\n"
    );
    assert_eq!(
        parse_blame_output(out.as_bytes()),
        vec![pair(100, "Ann"), pair(100, "Ann"), pair(200, "Bob"), pair(100, "Ann")]
    );
}

#[test]
fn one_pair_for_each_line_of_the_file() {
    let out = format!("{A} 1 1 3\nauthor Ann\nauthor-time 7\n\t\n\tauthor-time 9\n\t{B} 1 1\n");
    assert_eq!(
        parse_blame_output(out.as_bytes()),
        vec![pair(7, "Ann"), pair(7, "Ann"), pair(7, "Ann")]
    );
}

#[test]
fn empty_output_has_no_lines() {
    assert_eq!(parse_blame_output(b""), Vec::<(i64, String)>::new());
    assert_eq!(parse_blame_output(b"\n\n"), Vec::<(i64, String)>::new());
}

#[test]
fn names_are_trimmed_and_may_be_of_any_script() {
    let out = format!("{A} 1 1 1\nauthor  \u{3000}Zoë Ω \u{a0}\nauthor-time  12 \n\tx\n");
    assert_eq!(parse_blame_output(out.as_bytes()), vec![pair(12, "Zoë Ω")]);
}

#[test]
fn bad_times_count_as_zero() {
    let out = format!("{A} 1 1 1\nauthor Ann\nauthor-time soon\n\tx\n");
    assert_eq!(parse_blame_output(out.as_bytes()), vec![pair(0, "Ann")]);
    let out = format!("{A} 1 1 1\nauthor Ann\nauthor-time -5\n\tx\n");
    assert_eq!(parse_blame_output(out.as_bytes()), vec![pair(-5, "Ann")]);
    let out = format!("{A} 1 1 1\nauthor Ann\nauthor-time 9223372036854775808\n\tx\n");
    assert_eq!(parse_blame_output(out.as_bytes()), vec![pair(0, "Ann")]);
}

#[test]
fn a_name_that_is_no_text_leaves_the_author_as_it_was() {
    let mut out = format!("{A} 1 1 1\n").into_bytes();
    out.extend(b"author \xff\xfe\nauthor-time 5\n\tx\n");
    assert_eq!(parse_blame_output(&out), vec![pair(5, "")]);
}

#[test]
fn lines_before_the_first_header() {
    assert_eq!(parse_blame_output(b"\tx\n"), vec![pair(0, "")]);
}

#[test]
fn a_header_needs_forty_digits_and_a_space() {
    let out = format!("{A} 1 1 1\nauthor Ann\nauthor-time 1\n\tx\n{}g 1 1\n\ty\n", &B[..39]);
    assert_eq!(parse_blame_output(out.as_bytes()), vec![pair(1, "Ann"), pair(1, "Ann")]);
    let out = format!("{A} 1 1 1\nauthor Ann\nauthor-time 1\n\tx\n{B}\n\ty\n");
    assert_eq!(parse_blame_output(out.as_bytes()), vec![pair(1, "Ann"), pair(1, "Ann")]);
}

#[test]
fn arguments_of_git_blame() {
    let mut oid = [0u8; 20];
    oid[0] = 0xab;
    oid[19] = 0x0f;
    assert_eq!(
        blame_args("/r", oid, "src/a b.rs", None),
        vec![
            "-C",
            "/r",
            "blame",
            "--porcelain",
            "-w",
            "ab0000000000000000000000000000000000000f",
            "--",
            "src/a b.rs"
        ]
    );
    let args = blame_args("/r", oid, "f", Some("/r/.git-blame-ignore-revs"));
    assert_eq!(args[5], "--ignore-revs-file=/r/.git-blame-ignore-revs");
    assert_eq!(args.len(), 9);
}
