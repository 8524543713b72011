use linescript::interp::{Effect, Interp, LangError, RunResult};

fn eval_math(op: &[u8], a: &[u8], b: Option<&Vec<u8>>) -> (bool, bool, bool, Vec<u8>) {
    let pa = std::str::from_utf8(a).ok().and_then(|s| s.parse::<f32>().ok());
    let pb = b
        .and_then(|t| std::str::from_utf8(t).ok())
        .and_then(|s| s.parse::<f32>().ok());
    let a_ok = pa.is_some();
    let b_ok = pb.is_some();
    let b_zero = pb.map(|v| v == 0.0).unwrap_or(false);
    let value: Option<f32> = match (op, pa, pb) {
        (b"add", Some(x), Some(y)) => Some(x + y),
        (b"sub", Some(x), Some(y)) => Some(x - y),
        (b"mul", Some(x), Some(y)) => Some(x * y),
        (b"div", Some(x), Some(y)) => {
            if y == 0.0 {
                None
            } else {
                Some(x / y)
            }
        }
        (b"mod", Some(x), Some(y)) => Some(x % y),
        (b"pow", Some(x), Some(y)) => Some(x.powf(y)),
        (b"sqrt", Some(x), _) => Some(x.sqrt()),
        _ => None,
    };
    let vs = value
        .map(|v| v.to_string().into_bytes())
        .unwrap_or_default();
    (a_ok, b_ok, b_zero, vs)
}

fn run_machine(it: &mut Interp, inputs: &[&str]) -> (Vec<Vec<u8>>, RunResult) {
    let mut prints: Vec<Vec<u8>> = Vec::new();
    let mut next_input: usize = 0;
    for _ in 0..10_000 {
        match it.run(1_000_000) {
            RunResult::Suspended(eff) => match eff {
                Effect::Print(b) => prints.push(b),
                Effect::Clear => {}
                Effect::Input(_prompt) => {
                    let line = inputs[next_input];
                    next_input += 1;
                    assert!(it.resume_input(&line.as_bytes().to_vec()));
                }
                Effect::Wait(tok) => {
                    let ok = std::str::from_utf8(&tok)
                        .ok()
                        .and_then(|s| s.parse::<f32>().ok())
                        .is_some();
                    assert!(it.resume_wait(ok));
                }
                Effect::Math { op, a, b } => {
                    let (a_ok, b_ok, b_zero, v) = eval_math(&op, &a, b.as_ref());
                    assert!(it.resume_math(a_ok, b_ok, b_zero, &v));
                }
            },
            other => return (prints, other),
        }
    }
    panic!("script did not settle");
}

fn run_script(src: &str, inputs: &[&str]) -> (Vec<Vec<u8>>, RunResult) {
    let source = src.as_bytes().to_vec();
    let mut it = match Interp::load(&source) {
        Ok(i) => i,
        Err(f) => panic!("load failed on line {:?}", f.line),
    };
    run_machine(&mut it, inputs)
}

fn printed(prints: &[Vec<u8>]) -> String {
    let mut s = String::new();
    for p in prints {
        s.push_str(std::str::from_utf8(p).unwrap());
    }
    s
}

fn failure(r: RunResult) -> (LangError, Option<usize>) {
    match r {
        RunResult::Failed(f) => (f.error, f.line),
        other => panic!("expected a failure, got {:?}", kind_name(&other)),
    }
}

fn kind_name(r: &RunResult) -> &'static str {
    match r {
        RunResult::Done => "Done",
        RunResult::Failed(_) => "Failed",
        RunResult::Suspended(_) => "Suspended",
        RunResult::AwaitingReply => "AwaitingReply",
        RunResult::Spent => "Spent",
    }
}

#[test]
fn straight_line_runs_in_order() {
    let (prints, r) = run_script("set A 1\nout first\nout second\nout third", &[]);
    assert!(matches!(r, RunResult::Done));
    assert_eq!(printed(&prints), "first\nsecond\nthird\n");
}

#[test]
fn straight_line_halts_at_end_with_success() {
    let source = b"out a\nout b".to_vec();
    let mut it = Interp::load(&source).unwrap();
    let (_, r) = run_machine(&mut it, &[]);
    assert!(matches!(r, RunResult::Done));
    assert_eq!(it.cursor_pos(), 2);
    assert!(it.is_running());
}

#[test]
fn to_and_ret_resume_after_jump() {
    let src = "to W\nout after\nquit\nat W\nout inside\nret";
    let (prints, r) = run_script(src, &[]);
    assert!(matches!(r, RunResult::Done));
    assert_eq!(printed(&prints), "inside\nafter\n");
}

#[test]
fn if_self_equal_always_jumps() {
    let src = "if a eq a t W\nout skipped\nquit\nat W\nout jumped\nquit";
    let (prints, r) = run_script(src, &[]);
    assert!(matches!(r, RunResult::Done));
    assert_eq!(printed(&prints), "jumped\n");
}

#[test]
fn if_distinct_never_jumps() {
    let src = "if a eq b t W\nout ran\nquit\nat W\nout wrong\nquit";
    let (prints, r) = run_script(src, &[]);
    assert!(matches!(r, RunResult::Done));
    assert_eq!(printed(&prints), "ran\n");
}

#[test]
fn if_noteq_jumps_on_distinct() {
    let src = "if a noteq b t W\nout skipped\nquit\nat W\nout jumped\nquit";
    let (prints, _) = run_script(src, &[]);
    assert_eq!(printed(&prints), "jumped\n");
}

#[test]
fn if_ret_action_returns() {
    let src = "to W\nout back\nquit\nat W\nif x == x r 0";
    let (prints, r) = run_script(src, &[]);
    assert!(matches!(r, RunResult::Done));
    assert_eq!(printed(&prints), "back\n");
}

#[test]
fn if_cursor_action_moves() {
    let src = "if 1 == 1 c 2\nout skipped\nout landed";
    let (prints, _) = run_script(src, &[]);
    assert_eq!(printed(&prints), "landed\n");
}

#[test]
fn math_div_by_zero_reports() {
    let (_, r) = run_script("math out div 10 0", &[]);
    let (e, line) = failure(r);
    assert!(matches!(e, LangError::ZeroDivision));
    assert_eq!(line, Some(0));
}

#[test]
fn math_div_stores_quotient() {
    let v = (10.0f32 / 2.0f32).to_string();
    assert_eq!(v, "5");
    let (prints, r) = run_script("math out div 10 2\nout {{out}}", &[]);
    assert!(matches!(r, RunResult::Done));
    assert_eq!(printed(&prints), "5\n");
}

#[test]
fn math_sqrt_uses_one_operand() {
    let (prints, _) = run_script("math r sqrt 9\nout {{r}}", &[]);
    assert_eq!(printed(&prints), "3\n");
}

#[test]
fn math_pow_exact() {
    let (prints, _) = run_script("math r pow 2 10\nout {{r}}", &[]);
    assert_eq!(printed(&prints), "1024\n");
}

#[test]
fn math_mod_exact() {
    let (prints, _) = run_script("math r mod 10 3\nout {{r}}", &[]);
    assert_eq!(printed(&prints), "1\n");
}

#[test]
fn math_missing_operand_not_enough_args() {
    let (_, r) = run_script("math out add 5", &[]);
    let (e, line) = failure(r);
    assert!(matches!(e, LangError::NotEnoughArgs));
    assert_eq!(line, Some(0));
}

#[test]
fn math_unknown_operation_reports() {
    let (_, r) = run_script("math out frob 5 6", &[]);
    let (e, _) = failure(r);
    assert!(matches!(e, LangError::UnknownOperation));
}

#[test]
fn math_bad_operand_not_integer() {
    let (_, r) = run_script("math out add x 6", &[]);
    let (e, _) = failure(r);
    assert!(matches!(e, LangError::NotInteger));
}

#[test]
fn set_then_out_prints_value() {
    let (prints, r) = run_script("set X hello\nout {{X}}", &[]);
    assert!(matches!(r, RunResult::Done));
    assert_eq!(printed(&prints), "hello\n");
}

#[test]
fn set_concatenates_without_separator() {
    let (prints, _) = run_script("set X a b c\nout {{X}}", &[]);
    assert_eq!(printed(&prints), "abc\n");
}

#[test]
fn rand_single_bound_in_range() {
    let source = b"rand X rnd 5".to_vec();
    let mut it = Interp::load(&source).unwrap();
    let (_, r) = run_machine(&mut it, &[]);
    assert!(matches!(r, RunResult::Done));
    let v = it.var_value(&b"X".to_vec()).expect("X was stored");
    let n: i32 = std::str::from_utf8(&v).unwrap().parse().unwrap();
    assert!(0 <= n && n < 5);
}

#[test]
fn rand_two_bounds_in_range() {
    let source = b"rand X rnd 5 to 10".to_vec();
    let mut it = Interp::load(&source).unwrap();
    let (_, r) = run_machine(&mut it, &[]);
    assert!(matches!(r, RunResult::Done));
    let v = it.var_value(&b"X".to_vec()).expect("X was stored");
    let n: i32 = std::str::from_utf8(&v).unwrap().parse().unwrap();
    assert!(5 <= n && n < 10);
}

#[test]
fn rand_bad_bound_not_integer() {
    let (_, r) = run_script("rand X rnd five", &[]);
    let (e, _) = failure(r);
    assert!(matches!(e, LangError::NotInteger));
}

#[test]
fn unbalanced_ret_not_enough_args() {
    let (_, r) = run_script("ret", &[]);
    let (e, line) = failure(r);
    assert!(matches!(e, LangError::NotEnoughArgs));
    assert_eq!(line, Some(0));
}

#[test]
fn missing_waypoint_carries_name_and_line() {
    let (_, r) = run_script("out first\nto nowhere", &[]);
    let (e, line) = failure(r);
    match e {
        LangError::NoWaypoint(name) => assert_eq!(name, b"nowhere".to_vec()),
        _ => panic!("expected NoWaypoint"),
    }
    assert_eq!(line, Some(1));
}

#[test]
fn if_jump_to_missing_waypoint_reports() {
    let (_, r) = run_script("if a == a t gone", &[]);
    let (e, line) = failure(r);
    match e {
        LangError::NoWaypoint(name) => assert_eq!(name, b"gone".to_vec()),
        _ => panic!("expected NoWaypoint"),
    }
    assert_eq!(line, Some(0));
}

#[test]
fn out_end_suffix_no_newline() {
    let (prints, _) = run_script("out end=! hi there", &[]);
    assert_eq!(prints.len(), 1);
    assert_eq!(prints[0], b"hi there!".to_vec());
}

#[test]
fn out_plain_has_newline() {
    let (prints, _) = run_script("out hi there", &[]);
    assert_eq!(prints.len(), 1);
    assert_eq!(prints[0], b"hi there\n".to_vec());
}

#[test]
fn comment_lines_do_nothing() {
    let src = "// to W\n// ret nonsense here\nout ok\n// quit";
    let (prints, r) = run_script(src, &[]);
    assert!(matches!(r, RunResult::Done));
    assert_eq!(printed(&prints), "ok\n");
}

#[test]
fn at_without_name_fails_load() {
    let source = b"out fine\nat".to_vec();
    match Interp::load(&source) {
        Err(f) => {
            assert!(matches!(f.error, LangError::NotEnoughArgs));
            assert_eq!(f.line, Some(1));
        }
        Ok(_) => panic!("load should fail"),
    }
}

#[test]
fn quit_stops_execution() {
    let (prints, r) = run_script("out a\nquit\nout b", &[]);
    assert!(matches!(r, RunResult::Done));
    assert_eq!(printed(&prints), "a\n");
}

#[test]
fn exit_stops_execution_too() {
    let (prints, _) = run_script("out a\nexit\nout b", &[]);
    assert_eq!(printed(&prints), "a\n");
}

#[test]
fn cursor_jumps_to_line() {
    let (prints, r) = run_script("cursor 2\nout skipped\nout landed", &[]);
    assert!(matches!(r, RunResult::Done));
    assert_eq!(printed(&prints), "landed\n");
}

#[test]
fn cursor_past_end_halts() {
    let (prints, r) = run_script("out once\ncursor 99", &[]);
    assert!(matches!(r, RunResult::Done));
    assert_eq!(printed(&prints), "once\n");
}

#[test]
fn cursor_bad_token_not_integer() {
    let (_, r) = run_script("cursor x", &[]);
    let (e, _) = failure(r);
    assert!(matches!(e, LangError::NotInteger));
}

#[test]
fn unknown_comparator_reports() {
    let (_, r) = run_script("if a almost b t W", &[]);
    let (e, _) = failure(r);
    assert!(matches!(e, LangError::UnknownOperation));
}

#[test]
fn unknown_command_carries_name() {
    let (_, r) = run_script("bogus one two", &[]);
    let (e, line) = failure(r);
    match e {
        LangError::NoCmdNamed(name) => assert_eq!(name, b"bogus".to_vec()),
        _ => panic!("expected NoCmdNamed"),
    }
    assert_eq!(line, Some(0));
}

#[test]
fn command_names_match_case_insensitively() {
    let (prints, _) = run_script("OUT shouty", &[]);
    assert_eq!(printed(&prints), "shouty\n");
}

#[test]
fn later_waypoint_wins() {
    let src = "to W\nquit\nat W\nout first\nquit\nat W\nout second\nquit";
    let (prints, _) = run_script(src, &[]);
    assert_eq!(printed(&prints), "second\n");
}

#[test]
fn seeded_marker_variables_emit_literal_markers() {
    let (prints, _) = run_script("out {{%OPEN}}X{{%CLOES}}", &[]);
    assert_eq!(prints[0], b"{{X{{%CLOES}}\n".to_vec());
}

#[test]
fn substitution_stops_at_unknown_name() {
    let (prints, _) = run_script("out {{nope}}", &[]);
    assert_eq!(prints[0], b"{{nope}}\n".to_vec());
}

#[test]
fn two_references_both_substitute() {
    let (prints, _) = run_script("set A x\nset B y\nout {{A}} and {{B}}", &[]);
    assert_eq!(printed(&prints), "x and y\n");
}

#[test]
fn input_stores_trimmed_line() {
    let source = b"input NAME Who goes\nout {{NAME}}".to_vec();
    let mut it = Interp::load(&source).unwrap();
    match it.run(1_000_000) {
        RunResult::Suspended(Effect::Input(prompt)) => {
            assert_eq!(prompt, b" Who goes".to_vec());
        }
        other => panic!("expected an input request, got {:?}", kind_name(&other)),
    }
    assert!(it.resume_input(&b"  Bob \n".to_vec()));
    let (prints, r) = run_machine(&mut it, &[]);
    assert!(matches!(r, RunResult::Done));
    assert_eq!(printed(&prints), "Bob\n");
}

#[test]
fn wait_bad_token_not_integer() {
    let (_, r) = run_script("wait soon", &[]);
    let (e, line) = failure(r);
    assert!(matches!(e, LangError::NotInteger));
    assert_eq!(line, Some(0));
}

#[test]
fn wait_parsed_token_continues() {
    let (prints, r) = run_script("wait 0.01\nout woke", &[]);
    assert!(matches!(r, RunResult::Done));
    assert_eq!(printed(&prints), "woke\n");
}

#[test]
fn empty_source_is_done_at_once() {
    let (prints, r) = run_script("", &[]);
    assert!(matches!(r, RunResult::Done));
    assert!(prints.is_empty());
}

#[test]
fn blank_and_indented_lines_are_skipped() {
    let (prints, r) = run_script("\n   out indented\n\nout last", &[]);
    assert!(matches!(r, RunResult::Done));
    assert_eq!(printed(&prints), "indented\nlast\n");
}

#[test]
fn crlf_endings_are_stripped() {
    let (prints, r) = run_script("out a\r\nout b\r\n", &[]);
    assert!(matches!(r, RunResult::Done));
    assert_eq!(printed(&prints), "a\nb\n");
}

#[test]
fn stack_depth_tracks_pending_jumps() {
    let source = b"to W\nquit\nat W\nout deep\nwait 1".to_vec();
    let mut it = Interp::load(&source).unwrap();
    match it.run(1_000_000) {
        RunResult::Suspended(Effect::Print(_)) => {}
        other => panic!("expected a print, got {:?}", kind_name(&other)),
    }
    assert_eq!(it.stack_depth(), 1);
}

#[test]
fn input_without_name_reads_then_errors() {
    let source = b"input".to_vec();
    let mut it = Interp::load(&source).unwrap();
    match it.run(1_000_000) {
        RunResult::Suspended(Effect::Input(prompt)) => assert!(prompt.is_empty()),
        other => panic!("expected an input request, got {:?}", kind_name(&other)),
    }
    assert!(it.resume_input(&b"typed anyway".to_vec()));
    let (_, r) = run_machine(&mut it, &[]);
    let (e, line) = failure(r);
    assert!(matches!(e, LangError::NotEnoughArgs));
    assert_eq!(line, Some(0));
}

#[test]
fn run_without_reply_reports_awaiting() {
    let source = b"input X say".to_vec();
    let mut it = Interp::load(&source).unwrap();
    assert!(matches!(
        it.run(1_000_000),
        RunResult::Suspended(Effect::Input(_))
    ));
    assert!(matches!(it.run(1_000_000), RunResult::AwaitingReply));
    assert!(!it.resume_wait(true));
    assert!(it.resume_input(&b"hi".to_vec()));
    let (prints, r) = run_machine(&mut it, &[]);
    assert!(matches!(r, RunResult::Done));
    assert!(prints.is_empty());
}

#[test]
fn budget_exhaustion_reports_spent() {
    let source = b"at L\nto L".to_vec();
    let mut it = Interp::load(&source).unwrap();
    assert!(matches!(it.run(1000), RunResult::Spent));
}

#[test]
fn rand_bad_high_bound_not_integer() {
    let (_, r) = run_script("rand X rnd 5 to ten", &[]);
    let (e, _) = failure(r);
    assert!(matches!(e, LangError::NotInteger));
}

#[test]
fn to_without_target_not_enough_args() {
    let (_, r) = run_script("to", &[]);
    let (e, line) = failure(r);
    assert!(matches!(e, LangError::NotEnoughArgs));
    assert_eq!(line, Some(0));
}

#[test]
fn if_false_needs_no_action_tokens() {
    let (prints, r) = run_script("if a eq b\nout fine", &[]);
    assert!(matches!(r, RunResult::Done));
    assert_eq!(printed(&prints), "fine\n");
}

#[test]
fn if_true_without_action_not_enough_args() {
    let (_, r) = run_script("if a eq a", &[]);
    let (e, _) = failure(r);
    assert!(matches!(e, LangError::NotEnoughArgs));
}

#[test]
fn if_true_with_unrecognized_action_falls_through() {
    let (prints, r) = run_script("if a eq a z target\nout fell", &[]);
    assert!(matches!(r, RunResult::Done));
    assert_eq!(printed(&prints), "fell\n");
}

#[test]
fn set_without_name_not_enough_args() {
    let (_, r) = run_script("set", &[]);
    let (e, _) = failure(r);
    assert!(matches!(e, LangError::NotEnoughArgs));
}
