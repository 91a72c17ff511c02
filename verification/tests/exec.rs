use ush::exec::jumpexec::{jump_invocation, parse_agent_socket, per_host_parallel, AgentError, JumpSpec, JumpSpecError, DEFAULT_JUMP_COMMAND};
use ush::exec::{accept_target, elapsed_text, lossy_capture, status_outcome, substitute_target, ExecResult, Spec, SpecError};
use ush::strutil::StringSet;
use ush::time::{Duration, SystemTime};

fn spec(command: &str, timeout: Duration, parallel: usize, out: usize, err: usize) -> Spec {
    Spec {
        command: command.to_string(),
        args: vec![],
        timeout,
        parallel,
        stdout_bytes: out,
        stderr_bytes: err,
    }
}

#[test]
fn test_lossy_capture() {
    assert_eq!(lossy_capture(b"hello", 10), "hello");
    assert_eq!(lossy_capture(b"hello world", 5), "hello[...]");
}

#[test]
fn lossy_capture_replaces_invalid_utf8() {
    assert_eq!(lossy_capture(&[0x68, 0xff, 0x69], 10), "h\u{fffd}i");
    assert_eq!(lossy_capture(b"abc", 3), "abc");
    assert_eq!(lossy_capture(b"abc", 0), "[...]");
}

#[test]
fn test_spec_validate() {
    assert!(spec("", Duration::zero(), 0, 0, 0).validate().is_err());
    assert!(spec("a", Duration::from_secs(1), 1, 1, 1).validate().is_ok());
}

#[test]
fn spec_validate_reports_first_missing_setting() {
    let one = Duration::from_secs(1);
    assert_eq!(spec("", one, 1, 1, 1).validate(), Err(SpecError::NoCommand));
    assert_eq!(spec("a", Duration::zero(), 1, 1, 1).validate(), Err(SpecError::NoTimeout));
    assert_eq!(spec("a", one, 0, 1, 1).validate(), Err(SpecError::NoParallel));
    assert_eq!(spec("a", one, 1, 0, 1).validate(), Err(SpecError::NoStdoutBytes));
    assert_eq!(spec("a", one, 1, 1, 0).validate(), Err(SpecError::NoStderrBytes));
    assert_eq!(SpecError::NoCommand.message(), "command not set");
    assert_eq!(SpecError::NoStderrBytes.message(), "stderr_bytes must be greater than zero");
}

#[test]
fn exec_result_to_json() {
    let r = ExecResult {
        target: "hello world".to_string(),
        duration: "1.5s".to_string(),
        start_time: SystemTime::from_unix(Duration::new(0, 0)),
        end_time: SystemTime::from_unix(Duration::new(1, 500_000_000)),
        exit_status: 0,
        stdout: "hello[...]".to_string(),
        stderr: "a\"b\n".to_string(),
        error: String::new(),
    };
    assert_eq!(
        r.to_json(),
        "{\"target\":\"hello world\",\"duration\":\"1.5s\",\"start_time\":\"1970-01-01T00:00:00Z\",\"end_time\":\"1970-01-01T00:00:01.5Z\",\"exit_status\":0,\"stdout\":\"hello[...]\",\"stderr\":\"a\\\"b\\n\",\"error\":\"\"}"
    );
}

#[test]
fn substitute_target_replaces_every_placeholder() {
    assert_eq!(substitute_target("echo {} {}", "host1"), "echo host1 host1");
    assert_eq!(substitute_target("uptime", "host1"), "uptime");
}

#[test]
fn status_outcome_cases() {
    assert_eq!(status_outcome(true, Some(0), None), (0, String::new()));
    assert_eq!(status_outcome(false, Some(2), None), (2, "exit status 2".to_string()));
    assert_eq!(status_outcome(false, None, Some(9)), (-1, "signal: killed".to_string()));
    assert_eq!(status_outcome(false, None, Some(15)), (-1, "signal: 15".to_string()));
    assert_eq!(status_outcome(false, None, None), (-1, "exit status -1".to_string()));
}

#[test]
fn elapsed_text_between_instants() {
    let a = SystemTime::from_unix(Duration::from_secs(10));
    let b = SystemTime::from_unix(Duration::new(11, 500_000_000));
    assert_eq!(elapsed_text(a, b), "1.5s");
    assert_eq!(elapsed_text(b, a), "0s");
}

#[test]
fn accept_target_skips_comments_blanks_and_excluded() {
    let mut x = StringSet::new();
    x.add("skip");
    assert!(accept_target("host1", None));
    assert!(!accept_target("", None));
    assert!(!accept_target("#host1", None));
    assert!(!accept_target("skip", Some(&x)));
    assert!(accept_target("keep", Some(&x)));
}

fn jump(command: &str, hosts: &[&str]) -> JumpSpec {
    JumpSpec {
        spec: Spec {
            command: "uptime".to_string(),
            args: vec!["-p".to_string()],
            timeout: Duration::from_secs(10),
            parallel: 5,
            stdout_bytes: 100,
            stderr_bytes: 200,
        },
        jump_hosts_key_file: String::new(),
        jump_command: command.to_string(),
        jump_hosts: hosts.iter().map(|h| h.to_string()).collect(),
    }
}

#[test]
fn jump_spec_validate() {
    assert!(jump(DEFAULT_JUMP_COMMAND, &["j1"]).validate().is_ok());
    assert_eq!(jump("", &["j1"]).validate(), Err(JumpSpecError::NoJumpCommand));
    assert_eq!(jump("ssh {jump}", &[]).validate(), Err(JumpSpecError::NoJumpHosts));
    let mut j = jump("ssh {jump}", &["j1"]);
    j.spec.parallel = 0;
    assert_eq!(j.validate(), Err(JumpSpecError::Spec(SpecError::NoParallel)));
    assert_eq!(JumpSpecError::NoJumpHosts.message(), "no jump hosts available");
}

#[test]
fn per_host_parallel_is_at_least_one() {
    assert_eq!(per_host_parallel(5, 2), 2);
    assert_eq!(per_host_parallel(1, 3), 1);
    assert_eq!(per_host_parallel(0, 3), 1);
}

#[test]
fn jump_invocation_builds_remote_exec() {
    let j = jump(DEFAULT_JUMP_COMMAND, &["j1", "j2"]);
    let inv = jump_invocation(&j, "j1").unwrap();
    assert_eq!(inv.program, "ssh");
    assert_eq!(
        inv.args,
        vec![
            "-A", "-oBatchMode=yes", "-oConnectTimeout=10", "j1", "--", "ush", "exec", "--timeout=10s",
            "--parallel=2", "--stdout_bytes=100", "--stderr_bytes=200", "--", "uptime", "-p",
        ]
    );
    assert!(jump_invocation(&jump("  ", &["j1"]), "j1").is_err());
}

#[test]
fn agent_socket_is_read_from_first_line() {
    assert_eq!(
        parse_agent_socket("SSH_AUTH_SOCK=/tmp/ssh-x/agent.1; export SSH_AUTH_SOCK;\n").unwrap(),
        "/tmp/ssh-x/agent.1"
    );
    assert!(matches!(parse_agent_socket("no equals sign"), Err(AgentError::UnexpectedOutput)));
    assert!(matches!(parse_agent_socket("SSH_AUTH_SOCK=; export"), Err(AgentError::EmptySocket)));
}

#[test]
fn exec_result_json_reads_back() {
    let r = ExecResult {
        target: "h\"1".to_string(),
        duration: "2ms".to_string(),
        start_time: SystemTime::from_unix(Duration::new(5, 0)),
        end_time: SystemTime::from_unix(Duration::new(5, 2_000_000)),
        exit_status: -3,
        stdout: "out\n".to_string(),
        stderr: String::new(),
        error: "exit status -3".to_string(),
    };
    let line = r.to_json();
    let (v, rest) = ush::json::parse_json_value(&line).unwrap();
    assert_eq!(rest, "");
    let fields = ush::json::parse_exec_result(&v).unwrap();
    let keys: Vec<&str> = fields.iter().map(|(k, _)| k.as_str()).collect();
    assert_eq!(keys, vec!["target", "duration", "start_time", "end_time", "exit_status", "stdout", "stderr", "error"]);
    assert_eq!(fields[0].1.as_str(), Some("h\"1"));
    assert_eq!(fields[3].1.as_str(), Some("1970-01-01T00:00:05.002Z"));
    assert!(matches!(&fields[4].1, ush::json::JsonValue::Number(t) if t == "-3"));
    assert_eq!(fields[5].1.as_str(), Some("out\n"));
}

#[test]
fn lossy_capture_cuts_valid_prefix() {
    assert_eq!(lossy_capture("héllo".as_bytes(), 3), "hé[...]");
    assert_eq!(lossy_capture("héllo".as_bytes(), 2), "h\u{fffd}[...]");
}
