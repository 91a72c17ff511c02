//! Running targets through jump hosts: each jump host runs `ush exec` itself,
//! reached through a jump command, with its own ssh-agent.
use vstd::prelude::*;
use super::{spec_error_text, spec_validation, Spec, SpecError};
use crate::text::{self, chars_of, find_char, push_decimal, push_str, replace, split_whitespace, string_from, string_of_range};
use crate::time::{self, format_go_duration};

verus! {

/// The jump command used when none is given; `{jump}` stands for the jump host.
pub const DEFAULT_JUMP_COMMAND: &'static str = "ssh -A -oBatchMode=yes -oConnectTimeout=10 {jump}";

/// A [`Spec`] run through jump hosts.
pub struct JumpSpec {
    pub spec: Spec,
    /// A key file to add to each jump host's ssh-agent, or empty.
    pub jump_hosts_key_file: String,
    /// The jump command template; `{jump}` stands for the jump host.
    pub jump_command: String,
    pub jump_hosts: Vec<String>,
}

/// Why a [`JumpSpec`] cannot run.
#[derive(Clone, Copy, Debug, PartialEq, Eq, Structural)]
pub enum JumpSpecError {
    Spec(SpecError),
    NoJumpCommand,
    NoJumpHosts,
}

/// The message that describes a [`JumpSpecError`].
pub open spec fn jump_spec_error_text(e: JumpSpecError) -> Seq<char> {
    match e {
        JumpSpecError::Spec(s) => spec_error_text(s),
        JumpSpecError::NoJumpCommand => "jump command not set"@,
        JumpSpecError::NoJumpHosts => "no jump hosts available"@,
    }
}

impl JumpSpecError {
    /// The message that describes this error.
    pub fn message(&self) -> (s: String)
        ensures
            s@ == jump_spec_error_text(*self),
    {
        match self {
            JumpSpecError::Spec(e) => e.message(),
            JumpSpecError::NoJumpCommand => string_from("jump command not set"),
            JumpSpecError::NoJumpHosts => string_from("no jump hosts available"),
        }
    }
}

/// The outcome of validating a jump spec: the inner spec first, then the jump
/// command, then the jump hosts.
pub open spec fn jump_validation(j: JumpSpec) -> Result<(), JumpSpecError> {
    match spec_validation(j.spec) {
        Err(e) => Err(JumpSpecError::Spec(e)),
        Ok(()) => if j.jump_command@.len() == 0 {
            Err(JumpSpecError::NoJumpCommand)
        } else if j.jump_hosts@.len() == 0 {
            Err(JumpSpecError::NoJumpHosts)
        } else {
            Ok(())
        },
    }
}

impl JumpSpec {
    pub fn validate(&self) -> (r: Result<(), JumpSpecError>)
        ensures
            r == jump_validation(*self),
    {
        match self.spec.validate() {
            Err(e) => return Err(JumpSpecError::Spec(e)),
            Ok(()) => {},
        }
        if self.jump_command.as_str().is_empty() {
            return Err(JumpSpecError::NoJumpCommand);
        }
        if self.jump_hosts.len() == 0 {
            return Err(JumpSpecError::NoJumpHosts);
        }
        Ok(())
    }
}

/// How many commands each jump host runs at once: an even share of the total
/// parallelism, and at least one.
pub open spec fn host_parallel(parallel: nat, hosts: nat) -> nat {
    if parallel / hosts >= 1 {
        parallel / hosts
    } else {
        1
    }
}

/// How many commands each of `hosts` jump hosts runs at once.
pub fn per_host_parallel(parallel: usize, hosts: usize) -> (p: usize)
    requires
        hosts > 0,
    ensures
        p == host_parallel(parallel as nat, hosts as nat),
{
    let share = parallel / hosts;
    if share >= 1 {
        share
    } else {
        1
    }
}

/// The program and arguments that start `ush exec` on a jump host.
pub struct JumpInvocation {
    pub program: String,
    pub args: Vec<String>,
}

/// The arguments after the jump command's own: the remote `ush exec` and its settings.
pub open spec fn remote_exec_args(spec: Spec, parallel: nat) -> Seq<Seq<char>> {
    seq![
        "--"@,
        "ush"@,
        "exec"@,
        "--timeout="@ + time::go_duration(spec.timeout@),
        "--parallel="@ + text::decimal(parallel),
        "--stdout_bytes="@ + text::decimal(spec.stdout_bytes as nat),
        "--stderr_bytes="@ + text::decimal(spec.stderr_bytes as nat),
        "--"@,
        spec.command@,
    ] + Seq::new(spec.args@.len(), |k: int| spec.args@[k]@)
}

/// The words of the jump command for `host`: the template split on whitespace
/// after `{jump}` is replaced by the host.
pub open spec fn jump_words(j: JumpSpec, host: Seq<char>) -> Seq<Seq<char>> {
    text::words(text::replace_all(j.jump_command@, "{jump}"@, host))
}

/// The remote `ush exec` ends with `--`, the spec's command and then the spec's
/// arguments, unchanged and in their order.
pub proof fn lemma_remote_exec_args_tail(spec: Spec, parallel: nat)
    ensures
        ({
            let a = remote_exec_args(spec, parallel);
            let n = spec.args@.len();
            &&& a.len() == n + 9
            &&& a[7] == "--"@
            &&& a[8] == spec.command@
            &&& forall|k: int| 0 <= k < n ==> #[trigger] a[9 + k] == spec.args@[k]@
        }),
{
}

/// The jump command has no words for this host.
#[derive(Clone, Copy, Debug, PartialEq, Eq, Structural)]
pub struct EmptyJumpCommand;

/// The program and arguments that run the spec's targets on `host`: the first
/// word of the jump command is the program; the rest of its words come first among
/// the arguments, then the remote `ush exec` with its share of the parallelism.
pub fn jump_invocation(j: &JumpSpec, host: &str) -> (r: Result<JumpInvocation, EmptyJumpCommand>)
    requires
        j.jump_hosts@.len() > 0,
    ensures
        jump_words(*j, host@).len() == 0 <==> r is Err,
        r matches Ok(inv) ==> {
            let w = jump_words(*j, host@);
            let want = w.drop_first() + remote_exec_args(
                j.spec,
                host_parallel(j.spec.parallel as nat, j.jump_hosts@.len()),
            );
            &&& inv.program@ == w[0]
            &&& inv.args@.len() == want.len()
            &&& forall|k: int| 0 <= k < want.len() ==> (#[trigger] inv.args@[k])@ == want[k]
        },
        r matches Ok(inv) ==> {
            let n = j.spec.args@.len();
            &&& inv.args@.len() >= n + 2
            &&& inv.args@[inv.args@.len() - n - 2]@ == "--"@
            &&& inv.args@[inv.args@.len() - n - 1]@ == j.spec.command@
            &&& forall|k: int| 0 <= k < n ==> (#[trigger] inv.args@[inv.args@.len() - n + k])@ == j.spec.args@[k]@
        },
{
    proof {
        reveal_strlit("{jump}");
    }
    let cmd = replace(j.jump_command.as_str(), "{jump}", host);
    let parts = split_whitespace(cmd.as_str());
    if parts.len() == 0 {
        return Err(EmptyJumpCommand);
    }
    let ghost w = jump_words(*j, host@);
    let parallel = per_host_parallel(j.spec.parallel, j.jump_hosts.len());
    let mut args: Vec<String> = Vec::new();
    let mut k: usize = 1;
    while k < parts.len()
        invariant
            1 <= k <= parts@.len(),
            parts@.len() == w.len(),
            forall|i: int| 0 <= i < parts@.len() ==> (#[trigger] parts@[i])@ == w[i],
            args@.len() == k - 1,
            forall|i: int| 0 <= i < args@.len() ==> (#[trigger] args@[i])@ == w[i + 1],
        decreases parts.len() - k,
    {
        args.push(parts[k].clone());
        k = k + 1;
    }
    let ghost prefix = args@.len();
    args.push(string_from("--"));
    args.push(string_from("ush"));
    args.push(string_from("exec"));
    let mut a = string_from("--timeout=");
    push_str(&mut a, format_go_duration(j.spec.timeout).as_str());
    args.push(a);
    let mut a = string_from("--parallel=");
    push_decimal(&mut a, parallel as u128);
    args.push(a);
    let mut a = string_from("--stdout_bytes=");
    push_decimal(&mut a, j.spec.stdout_bytes as u128);
    args.push(a);
    let mut a = string_from("--stderr_bytes=");
    push_decimal(&mut a, j.spec.stderr_bytes as u128);
    args.push(a);
    args.push(string_from("--"));
    args.push(j.spec.command.clone());
    let ghost fixed = args@.len();
    let ghost snap = args@;
    let ghost want = w.drop_first() + remote_exec_args(
        j.spec,
        host_parallel(j.spec.parallel as nat, j.jump_hosts@.len()),
    );
    proof {
        reveal_strlit("--");
        reveal_strlit("ush");
        reveal_strlit("exec");
        assert forall|i: int| 0 <= i < fixed implies (#[trigger] snap[i])@ == want[i] by {
            if i < prefix {
                assert(want[i] == w[i + 1]);
            }
        }
    }
    let mut k: usize = 0;
    while k < j.spec.args.len()
        invariant
            k <= j.spec.args@.len(),
            args@.len() == fixed + k,
            fixed == prefix + 9,
            forall|i: int| 0 <= i < fixed ==> #[trigger] args@[i] == snap[i],
            forall|i: int| 0 <= i < k ==> (#[trigger] args@[fixed + i])@ == j.spec.args@[i]@,
        decreases j.spec.args.len() - k,
    {
        args.push(j.spec.args[k].clone());
        k = k + 1;
    }
    proof {
        lemma_remote_exec_args_tail(j.spec, host_parallel(j.spec.parallel as nat, j.jump_hosts@.len()));
        assert(want.len() == args@.len());
        assert forall|i: int| 0 <= i < want.len() implies (#[trigger] args@[i])@ == want[i] by {
            if i >= fixed {
                assert(args@[fixed + (i - fixed)] == args@[i]);
            } else {
                assert(snap[i]@ == want[i]);
            }
        }
    }
    Ok(JumpInvocation { program: parts[0].clone(), args })
}

/// Why the first line that `ssh-agent -s` printed names no socket.
#[derive(Clone, Copy, Debug, PartialEq, Eq, Structural)]
pub enum AgentError {
    /// The line holds no `=`.
    UnexpectedOutput,
    /// The value after `=` is empty up to its first `;`.
    EmptySocket,
}

/// The socket path in a line like `SSH_AUTH_SOCK=/tmp/agent.1; export SSH_AUTH_SOCK;`:
/// the text after the first `=`, up to the first `;` after it.
pub open spec fn agent_socket(line: Seq<char>) -> Result<Seq<char>, AgentError> {
    match text::first_index(line, '=') {
        None => Err(AgentError::UnexpectedOutput),
        Some(k) => {
            let after = line.skip(k + 1 as int);
            let sock = match text::first_index(after, ';') {
                Some(e) => after.take(e as int),
                None => after,
            };
            if sock.len() == 0 {
                Err(AgentError::EmptySocket)
            } else {
                Ok(sock)
            }
        },
    }
}

/// The socket path that ssh-agent announced on the first line of its output.
pub fn parse_agent_socket(first_line: &str) -> (r: Result<String, AgentError>)
    ensures
        match agent_socket(first_line@) {
            Ok(sock) => r matches Ok(s) && s@ == sock,
            Err(e) => r == Err::<String, AgentError>(e),
        },
{
    let cs = chars_of(first_line);
    let eq = match find_char(cs.as_slice(), 0, '=') {
        None => {
            assert(cs@.skip(0) == cs@);
            return Err(AgentError::UnexpectedOutput);
        },
        Some(k) => k,
    };
    assert(cs@.skip(0) == cs@);
    let start = eq + 1;
    let end = match find_char(cs.as_slice(), start, ';') {
        Some(e) => e,
        None => cs.len(),
    };
    proof {
        let after = cs@.skip(start as int);
        assert(after.take((end - start) as int) == cs@.subrange(start as int, end as int));
        assert(after == cs@.subrange(start as int, cs@.len() as int));
    }
    if end == start {
        return Err(AgentError::EmptySocket);
    }
    Ok(string_of_range(cs.as_slice(), start, end))
}

} // verus!
