use mathgen::args::{parse, quoted_message, Action, Config};
use mathgen::problem::Op;

fn owned(args: &[&str]) -> Vec<String> {
    args.iter().map(|s| s.to_string()).collect()
}

fn run(args: &[&str]) -> Config {
    match parse(owned(args)) {
        Ok(Action::Run(cfg)) => *cfg,
        Ok(_) => panic!("expected a run"),
        Err(e) => panic!("expected a run, got {e}"),
    }
}

fn error(args: &[&str]) -> String {
    match parse(owned(args)) {
        Err(e) => e,
        Ok(_) => panic!("expected {args:?} to fail"),
    }
}

#[test]
fn rejects_bad_arguments() {
    let bad = [
        vec!["--min", "50", "--max", "10"],
        vec!["--ops", "divide"],
        vec!["--count", "0"],
        vec!["--cols", "0"],
        vec!["--nonsense"],
        vec!["--count"],
    ];
    for args in bad {
        let owned: Vec<String> = args.iter().map(|s| s.to_string()).collect();
        assert!(parse(owned).is_err(), "expected {args:?} to fail");
    }
}

#[test]
fn accepts_both_flag_spellings() {
    let joined = parse(vec!["--count=7".into(), "--ops=add,sub".into()]).expect("parses");
    let split = parse(vec!["--count".into(), "7".into(), "--ops".into(), "add,sub".into()])
        .expect("parses");
    for action in [joined, split] {
        match action {
            Action::Run(cfg) => {
                assert_eq!(cfg.count, 7);
                assert_eq!(cfg.ops, vec![Op::Add, Op::Sub]);
            }
            _ => panic!("expected a run"),
        }
    }
}

#[test]
fn no_arguments_give_the_defaults() {
    let cfg = run(&[]);
    assert_eq!(cfg.count, 18);
    assert_eq!(cfg.output, "math-worksheet.pdf");
    assert_eq!(cfg.ops, vec![Op::Add]);
    assert_eq!((cfg.lo, cfg.hi), (10, 99));
    assert!(!cfg.simple && !cfg.answers);
    assert_eq!((cfg.cols, cfg.rows), (3, 3));
    assert_eq!(cfg.font_size, "52");
    assert_eq!(cfg.paper, (61200, 79200));
    assert_eq!(cfg.title, "Math Practice");
    assert_eq!(cfg.subtitle, None);
    assert_eq!(cfg.seed, None);
}

#[test]
fn every_flag_is_read() {
    let cfg = run(&[
        "-n", "36", "-o", "out.pdf", "--ops", "mul, Sub,MUL", "--min", "2", "--max", "12",
        "--simple", "--cols", "2", "--rows", "4", "--font-size", "80.5", "--paper", "A4",
        "--title", "Times", "--subtitle", "Week 1", "--answers", "--seed", "42",
    ]);
    assert_eq!(cfg.count, 36);
    assert_eq!(cfg.output, "out.pdf");
    assert_eq!(cfg.ops, vec![Op::Mul, Op::Sub]);
    assert_eq!((cfg.lo, cfg.hi), (2, 12));
    assert!(cfg.simple && cfg.answers);
    assert_eq!((cfg.cols, cfg.rows), (2, 4));
    assert_eq!(cfg.font_size, "80.5");
    assert_eq!(cfg.paper, (59528, 84189));
    assert_eq!(cfg.title, "Times");
    assert_eq!(cfg.subtitle.as_deref(), Some("Week 1"));
    assert_eq!(cfg.seed, Some(42));
}

#[test]
fn help_and_version() {
    assert!(matches!(parse(owned(&["-h"])), Ok(Action::Help)));
    assert!(matches!(parse(owned(&["--count", "3", "--help"])), Ok(Action::Help)));
    assert!(matches!(parse(owned(&["-V"])), Ok(Action::Version)));
    assert!(matches!(parse(owned(&["--version=1"])), Ok(Action::Version)));
    // An earlier bad argument is reported first.
    assert!(parse(owned(&["--nonsense", "--help"])).is_err());
}

#[test]
fn error_messages() {
    assert_eq!(error(&["--count"]), "--count needs a value");
    assert_eq!(error(&["-n"]), "-n needs a value");
    assert_eq!(error(&["--count", "x"]), "--count expects a number, got \"x\"");
    assert_eq!(error(&["-n", "-1"]), "--count expects a number, got \"-1\"");
    assert_eq!(error(&["--count", "0"]), "--count must be 1 or greater");
    assert_eq!(error(&["--min", "1.5"]), "--min expects a number, got \"1.5\"");
    assert_eq!(error(&["--seed", "18446744073709551616"]),
               "--seed expects a number, got \"18446744073709551616\"");
    assert_eq!(error(&["--ops", "divide"]),
               "unknown operation \"divide\" (choose from add, sub, mul)");
    assert_eq!(error(&["--ops", " , ,"]), "--ops needs at least one operation");
    assert_eq!(error(&["--paper", "Legal"]), "unknown paper \"legal\" (choose letter or a4)");
    assert_eq!(error(&["--font-size", "big"]), "--font-size expects a number, got \"big\"");
    assert_eq!(error(&["--nonsense"]),
               "unrecognized argument \"--nonsense\"\n\nRun `mathgen --help` for usage.");
    assert_eq!(error(&["-n=5"]),
               "unrecognized argument \"-n=5\"\n\nRun `mathgen --help` for usage.");
    assert_eq!(error(&["--min", "50", "--max", "10"]), "--min cannot be greater than --max");
    assert_eq!(error(&["--min=-5", "--max=-1"]), "--min cannot be negative");
    assert_eq!(error(&["--rows", "0"]), "--cols and --rows must be 1 or greater");
}

#[test]
fn numbers_are_read_as_rust_reads_them() {
    assert_eq!(run(&["--count", "+7"]).count, 7);
    assert_eq!(run(&["--min", "+0", "--max", "0099"]).hi, 99);
    assert_eq!(run(&["--seed", "18446744073709551615"]).seed, Some(u64::MAX));
    assert_eq!(run(&["--max", "9223372036854775807"]).hi, i64::MAX);
    assert!(parse(owned(&["--max", "9223372036854775808"])).is_err());
    assert!(parse(owned(&["--count", "+"])).is_err());
    assert!(parse(owned(&["--count", ""])).is_err());
    assert!(parse(owned(&["--count", " 5"])).is_err());
}

#[test]
fn font_sizes_in_float_syntax_are_kept() {
    for ok in ["52", "1e2", "2.", ".5", "+3.25E-1", "007", "0.01"] {
        assert_eq!(run(&["--font-size", ok]).font_size, ok);
        assert!(ok.parse::<f32>().is_ok(), "{ok}");
    }
    for not_positive in ["0", "-1", "-0", "0.000", "0e9", "inf", "-Infinity", "NaN", "nan"] {
        assert_eq!(error(&["--font-size", not_positive]), "--font-size must be a positive number",
                   "{not_positive:?}");
        assert!(not_positive.parse::<f32>().is_ok(), "{not_positive}");
    }
    for bad in ["", ".", "e5", "1e", "1.2.3", "1e+", "abc", "0x10", " 5"] {
        assert!(parse(owned(&["--font-size", bad])).is_err(), "{bad:?}");
        assert!(bad.parse::<f32>().is_err(), "{bad:?}");
    }
}

#[test]
fn values_may_start_with_dashes_or_hold_equals() {
    assert_eq!(run(&["--title", "--simple"]).title, "--simple");
    assert_eq!(run(&["--title=a=b"]).title, "a=b");
    assert_eq!(run(&["--output=", "--simple"]).output, "");
    assert!(run(&["--simple=yes"]).simple);
}

#[test]
fn quoted_messages_frame_the_value() {
    assert_eq!(quoted_message("unknown paper ", "\"x\"", " (choose letter or a4)"),
               "unknown paper \"x\" (choose letter or a4)");
    assert_eq!(quoted_message("", "", ""), "");
    // Quotes and control characters in a value are escaped as Rust's Debug does.
    assert_eq!(error(&["--ops", "a\"b\n"]),
               "unknown operation \"a\\\"b\\n\" (choose from add, sub, mul)");
}

#[test]
fn font_sizes_are_positive_exactly_when_they_read_as_positive_finite_floats() {
    let half_least = "7.00649232162408535461864791644958065640130970938257885878534141944895541342930300743319094181060791015625e-46";
    let overflow = "340282356779733661637539395458142568448";
    let cases = [
        ("1e-50", false),
        ("1e39", false),
        ("1e-45", true),
        ("1.4e-45", true),
        ("7e-46", false),
        ("7.1e-46", true),
        (half_least, false),
        ("7.00649232162408535461864791644958065640130970938257885878534141944895541342930300743319094181060791015626e-46", true),
        ("0.000000000000000000000000000000000000000000000701e0", true),
        ("3.4028235e38", true),
        ("3.40282356e38", true),
        ("3.4028236e38", false),
        (overflow, false),
        ("340282356779733661637539395458142568447", true),
        ("34028235677973366163753939545814256844.7e1", true),
        ("1e99999999999999999999999999", false),
        ("1e-99999999999999999999999999", false),
        ("0.0000e99999999999999999999999999", false),
        ("52", true),
        ("+0.5E+2", true),
    ];
    for (text, positive) in cases {
        let float: f32 = text.parse().unwrap();
        assert_eq!(float.is_finite() && float > 0.0, positive, "{text}");
        if positive {
            assert_eq!(run(&["--font-size", text]).font_size, text);
        } else {
            assert_eq!(error(&["--font-size", text]), "--font-size must be a positive number", "{text}");
        }
    }
}
