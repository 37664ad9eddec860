use lmutib::trace::{mkf_ni_trace, mkf_ni_trace_total, TraceError};

#[test]
fn one_task_line() {
    let trace: &[u8] = b"set -e;  echo '  CC main.o'; gcc -c main.c";
    let t = mkf_ni_trace(trace).unwrap();
    assert_eq!(t.rule_count(), 1);
    let (rule, targets) = t.rule_at(0);
    assert_eq!(rule.as_slice(), b"CC");
    assert_eq!(targets.get(b"main.o").unwrap().as_slice(), b"gcc -c main.c");
    assert_eq!(mkf_ni_trace_total(&t), 1);
}

#[test]
fn unrelated_lines_skipped() {
    let trace: &[u8] = b"make[1]: Entering directory\nset -e;  echo '  LD app'; ld -o app main.o\nmake[1]: Leaving directory";
    let t = mkf_ni_trace(trace).unwrap();
    assert_eq!(t.rule_count(), 1);
    let (rule, targets) = t.rule_at(0);
    assert_eq!(rule.as_slice(), b"LD");
    assert_eq!(targets.get(b"app").unwrap().as_slice(), b"ld -o app main.o");
}

#[test]
fn tasks_group_by_rule() {
    let trace: &[u8] = b"set -e;  echo '  CC a.o'; gcc -c a.c\nset -e;  echo '  CC b.o'; gcc -c b.c\nset -e;  echo '  LD app'; ld a.o b.o";
    let t = mkf_ni_trace(trace).unwrap();
    assert_eq!(t.rule_count(), 2);
    assert_eq!(mkf_ni_trace_total(&t), 3);
}

#[test]
fn same_rule_and_target_keeps_last_command() {
    let trace: &[u8] = b"set -e;  echo '  CC a.o'; gcc -O0 -c a.c\nset -e;  echo '  CC a.o'; gcc -O2 -c a.c";
    let t = mkf_ni_trace(trace).unwrap();
    assert_eq!(mkf_ni_trace_total(&t), 1);
    let (_, targets) = t.rule_at(0);
    assert_eq!(targets.get(b"a.o").unwrap().as_slice(), b"gcc -O2 -c a.c");
}

#[test]
fn echo_line_without_quote_rejected() {
    let trace: &[u8] = b"set -e;  echo '  CC main.o gcc -c main.c";
    assert!(matches!(mkf_ni_trace(trace), Err(TraceError::MalformedLine)));
}

#[test]
fn echo_line_with_one_token_rejected() {
    let trace: &[u8] = b"set -e;  echo '  CC'; gcc -c main.c";
    assert!(matches!(mkf_ni_trace(trace), Err(TraceError::MalformedLine)));
}

#[test]
fn empty_trace_is_empty_table() {
    let t = mkf_ni_trace(b"").unwrap();
    assert_eq!(t.rule_count(), 0);
    assert_eq!(mkf_ni_trace_total(&t), 0);
}
