//! The agents of a transfer, and who of them is free.

use vstd::prelude::*;
use vstd::string::*;
use vstd::utf8::*;

use crate::agent::exchange::{FindReader, Piece, ReaderView, ResponseReader, StreamReader};
use crate::agent::protocol;
use crate::agent::protocol::{OpCode, Request};
use crate::agent::python;
use crate::config;
use crate::config::Config;
use crate::error::{ErrorView, StrawsError};
use crate::text;

verus! {

/// After how many seconds an agent that was just started has to answer.
pub const INITIAL_PING_TIMEOUT_SECS: u64 = 10;

/// How many agents are started at one go.
pub const BATCH_SIZE: usize = 6;

/// How many milliseconds pass between two batches.
pub const BATCH_DELAY_MS: u64 = 300;

/// How many bytes of an agent's complaints are kept.
pub const STDERR_LIMIT: usize = 5000;

/// What an agent is doing.
#[derive(Debug, Clone, Copy, PartialEq, Eq, Structural)]
pub enum AgentState {
    Starting,
    Ready,
    Busy,
    Unhealthy,
}

/// An agent.
#[derive(Debug)]
pub struct Agent {
    pub id: usize,
    pub state: AgentState,
    pub bytes_transferred: u64,
    /// When bytes came last, in nanoseconds.
    pub last_activity: u64,
    /// The last that the agent complained about.
    pub stderr: String,
}

/// The end of `s` that takes at most `n` bytes in UTF-8, as long as it can be.
pub open spec fn back(s: Seq<char>, n: nat) -> Seq<char>
    decreases s.len(),
{
    if encode_utf8(s).len() <= n {
        s
    } else {
        back(s.drop_first(), n)
    }
}

fn width(c: char) -> (r: usize)
    ensures
        r == encode_scalar(c as u32).len(),
        1 <= r <= 4,
{
    let n: u32 = c as u32;
    if n <= 0x7f {
        1
    } else if n <= 0x7ff {
        2
    } else if n <= 0xffff {
        3
    } else {
        4
    }
}

proof fn lemma_bytes_behind(s: Seq<char>, i: int)
    requires
        0 <= i <= s.len(),
    ensures
        encode_utf8(s.skip(i)).len() <= encode_utf8(s).len(),
        i < s.len() ==> encode_utf8(s.skip(i)).len() == encode_scalar(s[i] as u32).len()
            + encode_utf8(s.skip(i + 1)).len(),
    decreases i,
{
    if i < s.len() {
        assert(s.skip(i).drop_first() =~= s.skip(i + 1));
    }
    if i == 0 {
        assert(s.skip(0) =~= s);
    } else {
        lemma_bytes_behind(s, i - 1);
        assert(s.skip(i - 1).drop_first() =~= s.skip(i));
    }
}

proof fn lemma_back(s: Seq<char>, i: int, n: nat)
    requires
        0 <= i <= s.len(),
        encode_utf8(s.skip(i)).len() <= n,
        i > 0 ==> encode_utf8(s.skip(i - 1)).len() > n,
    ensures
        back(s, n) == s.skip(i),
    decreases i,
{
    if i == 0 {
        assert(s.skip(0) =~= s);
    } else {
        lemma_bytes_behind(s, i - 1);
        let t = s.drop_first();
        assert(t.skip(i - 1) =~= s.skip(i));
        if i > 1 {
            assert(t.skip(i - 2) =~= s.skip(i - 1));
        }
        lemma_back(t, i - 1, n);
    }
}

proof fn lemma_bytes_of_both(a: Seq<char>, b: Seq<char>)
    ensures
        encode_utf8(a + b) == encode_utf8(a) + encode_utf8(b),
        encode_utf8(a).len() >= a.len(),
    decreases a.len(),
{
    if a.len() == 0 {
        assert(a + b =~= b);
        assert(encode_utf8(a) + encode_utf8(b) =~= encode_utf8(b));
    } else {
        lemma_bytes_of_both(a.drop_first(), b);
        assert((a + b).drop_first() =~= a.drop_first() + b);
        assert(encode_utf8(a + b) =~= encode_utf8(a) + encode_utf8(b));
    }
}

/// Where text is cut between two characters, its last bytes are kept, exactly as many as there is
/// room for.
pub proof fn lemma_last_bytes_are_kept(a: Seq<char>, b: Seq<char>)
    ensures
        back(a + b, encode_utf8(b).len()) == b,
        encode_utf8(back(a + b, encode_utf8(b).len())) == encode_utf8(a + b).skip(
            encode_utf8(a + b).len() - encode_utf8(b).len(),
        ),
    decreases a.len(),
{
    let n = encode_utf8(b).len();
    lemma_bytes_of_both(a, b);
    assert(encode_utf8(a + b).skip(encode_utf8(a + b).len() - n) =~= encode_utf8(b));
    if a.len() == 0 {
        assert(a + b =~= b);
    } else {
        lemma_last_bytes_are_kept(a.drop_first(), b);
        assert((a + b).drop_first() =~= a.drop_first() + b);
    }
}

impl Agent {
    /// An agent that was not started yet.
    pub fn new(id: usize, now: u64) -> (r: Self)
        ensures
            r.id == id,
            r.state == AgentState::Starting,
            r.bytes_transferred == 0,
            r.last_activity == now,
            r.stderr@ == Seq::<char>::empty(),
    {
        Agent {
            id,
            state: AgentState::Starting,
            bytes_transferred: 0,
            last_activity: now,
            stderr: String::new(),
        }
    }

    /// What the agent is doing.
    pub fn state(&self) -> (r: AgentState)
        ensures
            r == self.state,
    {
        self.state
    }

    /// How many bytes the agent sent.
    pub fn bytes_transferred(&self) -> (r: u64)
        ensures
            r == self.bytes_transferred,
    {
        self.bytes_transferred
    }

    /// The agent after it sent bytes; the count wraps around.
    pub open spec fn heard(self, bytes: u64, now: u64) -> Agent {
        Agent {
            bytes_transferred: self.bytes_transferred.wrapping_add(bytes),
            last_activity: now,
            ..self
        }
    }

    /// Counts bytes that the agent sent; the count wraps around.
    pub fn add_bytes(&mut self, bytes: u64, now: u64)
        ensures
            *final(self) == old(self).heard(bytes, now),
    {
        self.bytes_transferred = self.bytes_transferred.wrapping_add(bytes);
        self.last_activity = now;
    }

    /// Whether the agent waits for a job.
    pub fn is_available(&self) -> (r: bool)
        ensures
            r == (self.state == AgentState::Ready),
    {
        self.state == AgentState::Ready
    }

    /// The agent is not to be used any more.
    pub fn mark_unhealthy(&mut self)
        ensures
            *final(self) == (Agent { state: AgentState::Unhealthy, ..*old(self) }),
    {
        self.state = AgentState::Unhealthy;
    }

    /// Keeps what the agent complains about, as far as it is recent.
    pub fn note_stderr(&mut self, complaint: &str)
        ensures
            final(self).stderr@ == back(old(self).stderr@ + complaint@, STDERR_LIMIT as nat),
            final(self).id == old(self).id,
            final(self).state == old(self).state,
            final(self).bytes_transferred == old(self).bytes_transferred,
            final(self).last_activity == old(self).last_activity,
    {
        let all = text::cat(self.stderr.as_str(), complaint);
        let v = text::chars_of(all.as_str());
        let n: usize = v.len();
        let mut i: usize = n;
        let mut bytes: usize = 0;
        proof {
            assert(v@.skip(n as int) =~= Seq::<char>::empty());
        }
        while i > 0
            invariant
                i <= n == v@.len(),
                bytes == encode_utf8(v@.skip(i as int)).len(),
                bytes <= STDERR_LIMIT,
            ensures
                i <= n,
                encode_utf8(v@.skip(i as int)).len() <= STDERR_LIMIT,
                i > 0 ==> encode_utf8(v@.skip(i - 1)).len() > STDERR_LIMIT,
            decreases i,
        {
            proof {
                lemma_bytes_behind(v@, i - 1);
            }
            let more: usize = bytes + width(v[i - 1]);
            if more > STDERR_LIMIT {
                break;
            }
            bytes = more;
            i = i - 1;
        }
        proof {
            lemma_back(v@, i as int, STDERR_LIMIT as nat);
        }
        self.stderr = text::text_between(&v, i, n);
        proof {
            assert(self.stderr@ =~= all@.skip(i as int));
        }
    }

    /// What is sent for a request, and the reader for the answer.
    pub fn request(req: &Request) -> (r: (Vec<u8>, ResponseReader))
        ensures
            r.0@ == protocol::request_bytes(req@),
            r.1@ == ReaderView::Header,
    {
        (req.encode(), ResponseReader::new())
    }

    /// What is sent to read a range of a file, and the reader for its contents.
    pub fn stream_read(path: &str, offset: u64, length: u64) -> (r: (Vec<u8>, StreamReader))
        ensures
            r.0@ == protocol::request_bytes(
                protocol::plain_request(OpCode::Read, path@, offset, length),
            ),
            r.1 == StreamReader::Header,
    {
        (Request::read(path, offset, length).encode(), StreamReader::new())
    }

    /// What is sent to list a directory, and the reader for the files.
    pub fn find(path: &str, with_md5: bool) -> (r: (Vec<u8>, FindReader))
        ensures
            r.0@ == protocol::request_bytes(
                protocol::plain_request(
                    OpCode::Find,
                    path@,
                    if with_md5 {
                        1
                    } else {
                        0
                    },
                    0,
                ),
            ),
            r.1 == FindReader::Status,
    {
        (Request::find(path, with_md5).encode(), FindReader::new())
    }
}

// ---------------------------------------------------------------------------
// Listening to an agent
// ---------------------------------------------------------------------------

impl Agent {
    /// Takes bytes of a response that the agent sent. The data of a response are counted.
    pub fn take_response(&mut self, reader: ResponseReader, bytes: Vec<u8>, now: u64) -> (r: Result<
        ResponseReader,
        StrawsError,
    >)
        requires
            bytes@.len() == reader@.wants(),
        ensures
            match r {
                Ok(next) => reader@.taken(bytes@) == Ok::<ReaderView, ErrorView>(next@),
                Err(e) => reader@.taken(bytes@) == Err::<ReaderView, ErrorView>(e@),
            },
            *final(self) == if reader@ is Data {
                old(self).heard(bytes@.len() as u64, now)
            } else {
                *old(self)
            },
    {
        match &reader {
            ResponseReader::Data { .. } => self.add_bytes(bytes.len() as u64, now),
            _ => {},
        }
        reader.take(bytes)
    }

    /// Takes bytes of a file that the agent sent. The bytes of the file itself are counted.
    pub fn take_piece(&mut self, reader: &mut StreamReader, bytes: &[u8], now: u64) -> (r: Result<
        Piece,
        StrawsError,
    >)
        requires
            old(reader).wf(),
            bytes@.len() == old(reader).spec_wants(),
        ensures
            final(reader).wf(),
            match r {
                Ok(piece) => old(reader).spec_taken(bytes@) == Ok::<
                    (StreamReader, Piece),
                    ErrorView,
                >((*final(reader), piece)),
                Err(e) => old(reader).spec_taken(bytes@) == Err::<
                    (StreamReader, Piece),
                    ErrorView,
                >(e@) && *final(reader) == *old(reader),
            },
            *final(self) == if r == Ok::<Piece, StrawsError>(Piece::File) {
                old(self).heard(bytes@.len() as u64, now)
            } else {
                *old(self)
            },
    {
        match reader.take(bytes) {
            Ok(Piece::File) => {
                self.add_bytes(bytes.len() as u64, now);
                Ok(Piece::File)
            },
            other => other,
        }
    }
}

// ---------------------------------------------------------------------------
// Starting an agent
// ---------------------------------------------------------------------------

/// How a start went.
#[derive(Debug)]
pub enum StartEvent {
    /// SSH could not be run.
    NoProcess(String),
    /// SSH has no pipe to it.
    NoStdin,
    /// SSH has no pipe from it.
    NoStdout,
    /// The agent answered its first request.
    Answered,
    /// The first request failed.
    Failed(StrawsError),
    /// The first request was not answered in time.
    TimedOut,
}

/// What a start that failed is reported as.
pub open spec fn start_failure(event: StartEvent) -> Option<ErrorView> {
    match event {
        StartEvent::NoProcess(m) => Some(ErrorView::Connection("Failed to spawn SSH: "@ + m@)),
        StartEvent::NoStdin => Some(ErrorView::Connection("Failed to get stdin"@)),
        StartEvent::NoStdout => Some(ErrorView::Connection("Failed to get stdout"@)),
        StartEvent::Answered => None,
        StartEvent::Failed(e) => Some(e@),
        StartEvent::TimedOut => Some(ErrorView::Stall(INITIAL_PING_TIMEOUT_SECS)),
    }
}

/// The first request to an agent, which shows that it works.
pub fn ping() -> (r: Request)
    ensures
        r@ == protocol::plain_request(OpCode::Read, "/dev/null"@, 0, 0),
{
    Request::read("/dev/null", 0, 0)
}

/// The environment variable that carries the password to the program that SSH asks for it.
pub const ASKPASS_VARIABLE: &'static str = "STRAWS_ASKPASS_PASSWORD";

/// The options of SSH that say how to log in: without a password SSH never asks for one.
pub open spec fn login_options(config: Config) -> Seq<Seq<char>> {
    if config.password is None {
        seq!["-T"@, "-o"@, "BatchMode=yes"@]
    } else {
        seq!["-T"@]
    }
}

/// The other options of SSH that every connection has.
pub open spec fn fixed_args() -> Seq<Seq<char>> {
    seq![
        "-o"@,
        "StrictHostKeyChecking=accept-new"@,
        "-o"@,
        "ServerAliveInterval=60"@,
        "-o"@,
        "ServerAliveCountMax=3"@,
        "-p"@,
    ]
}

/// The arguments of SSH for a connection: how to log in, fixed options, the port, compression and
/// key where they are asked for, the host, and the command that starts the agent.
pub open spec fn ssh_arguments(config: Config) -> Seq<Seq<char>> {
    login_options(config) + fixed_args() + seq![text::decimal_text(config.port as nat)] + (
    if config.compress {
        seq!["-C"@]
    } else {
        Seq::empty()
    }) + (match config.identity {
        Some(key) => seq!["-i"@, key@],
        None => Seq::empty(),
    }) + seq![
        config::user_host_text(config.remote@),
        python::command_for(python::PYTHON_AGENT@),
    ]
}

/// What is added to the environment of SSH: where there is a password, SSH is told to ask `askpass`
/// for it and nobody else, and `askpass` finds the password in a variable of its own.
pub open spec fn ssh_environment(config: Config, askpass: Seq<char>) -> Seq<
    (Seq<char>, Seq<char>),
> {
    match config.password {
        None => Seq::empty(),
        Some(password) => seq![
            ("SSH_ASKPASS"@, askpass),
            ("SSH_ASKPASS_REQUIRE"@, "force"@),
            (ASKPASS_VARIABLE@, password@),
        ],
    }
}

/// What is added to the environment of SSH. `askpass` is a program that prints what the variable
/// `ASKPASS_VARIABLE` holds.
pub fn ssh_env(config: &Config, askpass: &str) -> (r: Vec<(String, String)>)
    ensures
        r@.map_values(|v: (String, String)| (v.0@, v.1@)) == ssh_environment(*config, askpass@),
        r@.len() == 0 <==> config.password is None,
{
    let mut r: Vec<(String, String)> = Vec::new();
    match &config.password {
        None => {},
        Some(password) => {
            r.push(("SSH_ASKPASS".to_owned(), askpass.to_owned()));
            r.push(("SSH_ASKPASS_REQUIRE".to_owned(), "force".to_owned()));
            r.push((ASKPASS_VARIABLE.to_owned(), password.clone()));
        },
    }
    proof {
        assert(r@.map_values(|v: (String, String)| (v.0@, v.1@)) =~= ssh_environment(
            *config,
            askpass@,
        ));
    }
    r
}

/// The arguments of SSH for a connection.
pub fn ssh_args(config: &Config) -> (r: Vec<String>)
    ensures
        text::texts(r@) == ssh_arguments(*config),
{
    let mut args: Vec<String> = Vec::new();
    args.push("-T".to_owned());
    if config.password.is_none() {
        args.push("-o".to_owned());
        args.push("BatchMode=yes".to_owned());
    }
    proof {
        assert(text::texts(args@) =~= login_options(*config));
    }
    let ghost front = text::texts(args@);
    args.push("-o".to_owned());
    args.push("StrictHostKeyChecking=accept-new".to_owned());
    args.push("-o".to_owned());
    args.push("ServerAliveInterval=60".to_owned());
    args.push("-o".to_owned());
    args.push("ServerAliveCountMax=3".to_owned());
    args.push("-p".to_owned());
    args.push(text::decimal(config.port as u64));
    proof {
        assert(text::texts(args@) =~= front + fixed_args() + seq![
            text::decimal_text(config.port as nat),
        ]);
    }
    let ghost a = text::texts(args@);
    if config.compress {
        args.push("-C".to_owned());
        proof {
            assert(text::texts(args@) =~= a + seq!["-C"@]);
        }
    } else {
        proof {
            assert(a + Seq::<Seq<char>>::empty() =~= a);
        }
    }
    let ghost b = text::texts(args@);
    match &config.identity {
        Some(key) => {
            args.push("-i".to_owned());
            args.push(key.clone());
            proof {
                assert(text::texts(args@) =~= b + seq!["-i"@, key@]);
            }
        },
        None => {
            proof {
                assert(b + Seq::<Seq<char>>::empty() =~= b);
            }
        },
    }
    let ghost c = text::texts(args@);
    args.push(config.remote.user_host());
    args.push(python::agent_command());
    proof {
        assert(text::texts(args@) =~= c + seq![
            config::user_host_text(config.remote@),
            python::command_for(python::PYTHON_AGENT@),
        ]);
    }
    args
}

// ---------------------------------------------------------------------------
// The pool
// ---------------------------------------------------------------------------

/// The agents of a transfer.
pub struct AgentPool {
    pub agents: Vec<Agent>,
    pub config: Config,
    pub aborted: bool,
}

/// The first agent that waits for a job, if there is one.
pub open spec fn first_ready(states: Seq<AgentState>) -> Option<int> {
    states.index_of_first(AgentState::Ready)
}

/// What the pool's methods do to an agent: it is started, taken, given back, or given up.
pub enum PoolStep {
    Start(int, bool),
    Acquire,
    Release(int),
    GiveUp(int),
    Shutdown,
}

/// The agent that a step is about exists.
pub open spec fn names_an_agent(step: PoolStep, n: nat) -> bool {
    match step {
        PoolStep::Start(i, _) | PoolStep::Release(i) | PoolStep::GiveUp(i) => 0 <= i < n,
        _ => true,
    }
}

/// The states of the agents after a step.
pub open spec fn stepped(states: Seq<AgentState>, step: PoolStep) -> Seq<AgentState> {
    match step {
        PoolStep::Start(i, ok) => states.update(
            i,
            if ok {
                AgentState::Ready
            } else {
                AgentState::Unhealthy
            },
        ),
        PoolStep::Acquire => match first_ready(states) {
            Some(i) => states.update(i, AgentState::Busy),
            None => states,
        },
        PoolStep::Release(i) => if states[i] == AgentState::Unhealthy {
            states
        } else {
            states.update(i, AgentState::Ready)
        },
        PoolStep::GiveUp(i) => states.update(i, AgentState::Unhealthy),
        PoolStep::Shutdown => Seq::new(states.len(), |i: int| AgentState::Unhealthy),
    }
}

/// How many agents can be used.
pub open spec fn healthy(states: Seq<AgentState>) -> nat
    decreases states.len(),
{
    if states.len() == 0 {
        0
    } else {
        healthy(states.drop_last()) + (if states.last() == AgentState::Unhealthy {
            0nat
        } else {
            1nat
        })
    }
}

proof fn lemma_first_is_ready(states: Seq<AgentState>, id: int)
    requires
        0 <= id < states.len(),
        states[id] == AgentState::Ready,
        forall|i: int| 0 <= i < id ==> (#[trigger] states[i]) != AgentState::Ready,
    ensures
        first_ready(states) == Some(id),
{
    states.index_of_first_ensures(AgentState::Ready);
}

impl AgentPool {
    /// Agents are numbered by their place.
    pub open spec fn wf(self) -> bool {
        forall|i: int| 0 <= i < self.agents@.len() ==> (#[trigger] self.agents@[i]).id == i
    }

    /// What the agents are doing.
    pub open spec fn states(self) -> Seq<AgentState> {
        self.agents@.map_values(|a: Agent| a.state)
    }

    /// Everything but what the agents are doing is the same.
    pub open spec fn same_agents(self, other: Self) -> bool {
        &&& self.config == other.config
        &&& self.aborted == other.aborted
        &&& self.agents@.len() == other.agents@.len()
        &&& forall|i: int|
            0 <= i < self.agents@.len() ==> (#[trigger] self.agents@[i]) == (Agent {
                state: self.agents@[i].state,
                ..other.agents@[i]
            })
    }

    /// A pool with as many agents as the configuration asks for, none of them started.
    pub fn new(config: Config, now: u64) -> (r: Self)
        ensures
            r.wf(),
            r.config == config,
            !r.aborted,
            r.states() == Seq::new(config.tunnels as nat, |i: int| AgentState::Starting),
            forall|i: int|
                0 <= i < r.agents@.len() ==> (#[trigger] r.agents@[i]).bytes_transferred == 0
                    && r.agents@[i].last_activity == now && r.agents@[i].stderr@.len() == 0,
    {
        let mut agents: Vec<Agent> = Vec::new();
        let mut i: usize = 0;
        while i < config.tunnels
            invariant
                i <= config.tunnels,
                agents@.len() == i,
                forall|j: int|
                    0 <= j < i ==> (#[trigger] agents@[j]).id == j && agents@[j].state
                        == AgentState::Starting && agents@[j].bytes_transferred == 0
                        && agents@[j].last_activity == now && agents@[j].stderr@.len() == 0,
            decreases config.tunnels - i,
        {
            agents.push(Agent::new(i, now));
            i = i + 1;
        }
        let r = AgentPool { agents, config, aborted: false };
        proof {
            assert(r.states() =~= Seq::new(config.tunnels as nat, |i: int| AgentState::Starting));
        }
        r
    }

    fn set_state(&mut self, id: usize, state: AgentState)
        requires
            id < old(self).agents@.len(),
        ensures
            final(self).same_agents(*old(self)),
            final(self).states() == old(self).states().update(id as int, state),
            old(self).wf() ==> final(self).wf(),
    {
        let ghost before = *self;
        let agent = &mut self.agents[id];
        agent.state = state;
        proof {
            assert(self.states() =~= before.states().update(id as int, state));
        }
    }

    /// Whether to pause before the next agent is started: after every batch.
    pub fn pauses_after(started: usize) -> (r: bool)
        ensures
            r == (started as int % BATCH_SIZE as int == 0),
    {
        started % BATCH_SIZE == 0
    }

    /// Takes note of how the start of an agent went.
    pub fn started(&mut self, id: usize, event: StartEvent) -> (r: Result<(), StrawsError>)
        requires
            old(self).wf(),
            id < old(self).agents@.len(),
        ensures
            final(self).wf(),
            final(self).same_agents(*old(self)),
            match start_failure(event) {
                None => r is Ok,
                Some(e) => r matches Err(x) && x@ == e,
            },
            final(self).states() == stepped(
                old(self).states(),
                PoolStep::Start(id as int, start_failure(event) is None),
            ),
    {
        let failure: Option<StrawsError> = match event {
            StartEvent::NoProcess(m) => Some(
                StrawsError::Connection(text::cat("Failed to spawn SSH: ", m.as_str())),
            ),
            StartEvent::NoStdin => Some(StrawsError::Connection("Failed to get stdin".to_owned())),
            StartEvent::NoStdout => Some(StrawsError::Connection("Failed to get stdout".to_owned())),
            StartEvent::Answered => None,
            StartEvent::Failed(e) => Some(e),
            StartEvent::TimedOut => Some(StrawsError::Stall(INITIAL_PING_TIMEOUT_SECS)),
        };
        match failure {
            None => {
                self.set_state(id, AgentState::Ready);
                Ok(())
            },
            Some(e) => {
                self.set_state(id, AgentState::Unhealthy);
                Err(e)
            },
        }
    }

    /// What the starts of all agents come to: without a single one there is no transfer.
    pub fn start_outcome(successes: usize) -> (r: Result<(), StrawsError>)
        ensures
            match r {
                Ok(_) => successes > 0,
                Err(e) => successes == 0 && e@ == ErrorView::AllAgentsUnhealthy,
            },
    {
        if successes == 0 {
            Err(StrawsError::AllAgentsUnhealthy)
        } else {
            Ok(())
        }
    }

    /// Takes the first agent that waits for a job.
    pub fn acquire(&mut self) -> (r: Option<usize>)
        requires
            old(self).wf(),
        ensures
            final(self).wf(),
            final(self).same_agents(*old(self)),
            match r {
                None => first_ready(old(self).states()) is None,
                Some(id) => first_ready(old(self).states()) == Some(id as int) && id < old(self).agents@.len(),
            },
            final(self).states() == stepped(old(self).states(), PoolStep::Acquire),
    {
        proof {
            self.states().index_of_first_ensures(AgentState::Ready);
        }
        let mut i: usize = 0;
        while i < self.agents.len()
            invariant
                *self == *old(self),
                self.wf(),
                i <= self.agents@.len(),
                forall|j: int| 0 <= j < i ==> (#[trigger] self.states()[j]) != AgentState::Ready,
            decreases self.agents@.len() - i,
        {
            if self.agents[i].is_available() {
                proof {
                    assert(self.states()[i as int] == AgentState::Ready);
                    lemma_first_is_ready(self.states(), i as int);
                }
                self.set_state(i, AgentState::Busy);
                return Some(i);
            }
            proof {
                assert(self.states()[i as int] == self.agents@[i as int].state);
            }
            i = i + 1;
        }
        proof {
            self.states().index_of_first_ensures(AgentState::Ready);
        }
        None
    }

    /// Gives an agent back. One that is not to be used any more stays so.
    pub fn release(&mut self, id: usize)
        requires
            old(self).wf(),
            id < old(self).agents@.len(),
        ensures
            final(self).wf(),
            final(self).same_agents(*old(self)),
            final(self).states() == stepped(old(self).states(), PoolStep::Release(id as int)),
    {
        proof {
            assert(self.states()[id as int] == self.agents@[id as int].state);
        }
        if self.agents[id].state() != AgentState::Unhealthy {
            self.set_state(id, AgentState::Ready);
        }
    }

    /// An agent is not to be used any more.
    pub fn mark_unhealthy(&mut self, id: usize)
        requires
            old(self).wf(),
            id < old(self).agents@.len(),
        ensures
            final(self).wf(),
            final(self).same_agents(*old(self)),
            final(self).states() == stepped(old(self).states(), PoolStep::GiveUp(id as int)),
    {
        self.set_state(id, AgentState::Unhealthy);
    }

    /// How many agents can be used.
    pub fn healthy_count(&self) -> (r: usize)
        ensures
            r == healthy(self.states()),
    {
        let mut n: usize = 0;
        let mut i: usize = 0;
        let ghost s = self.states();
        while i < self.agents.len()
            invariant
                n <= i <= self.agents@.len(),
                s == self.states(),
                n == healthy(s.take(i as int)),
            decreases self.agents@.len() - i,
        {
            proof {
                assert(s.take(i + 1).drop_last() =~= s.take(i as int));
                assert(s.take(i + 1).last() == self.agents@[i as int].state);
            }
            if self.agents[i].state() != AgentState::Unhealthy {
                n = n + 1;
            }
            i = i + 1;
        }
        proof {
            assert(s.take(i as int) =~= s);
        }
        n
    }

    /// Whether an agent waits for a job.
    pub fn has_available(&self) -> (r: bool)
        ensures
            r == self.states().contains(AgentState::Ready),
    {
        let mut i: usize = 0;
        while i < self.agents.len()
            invariant
                i <= self.agents@.len(),
                forall|j: int| 0 <= j < i ==> (#[trigger] self.states()[j]) != AgentState::Ready,
            decreases self.agents@.len() - i,
        {
            proof {
                assert(self.states()[i as int] == self.agents@[i as int].state);
            }
            if self.agents[i].is_available() {
                return true;
            }
            i = i + 1;
        }
        false
    }

    /// All agents.
    pub fn agents(&self) -> (r: &Vec<Agent>)
        ensures
            *r == self.agents,
    {
        &self.agents
    }

    /// The user wants the transfer to stop.
    pub fn abort(&mut self)
        ensures
            *final(self) == (AgentPool { aborted: true, ..*old(self) }),
    {
        self.aborted = true;
    }

    /// Whether the user wants the transfer to stop.
    pub fn is_aborted(&self) -> (r: bool)
        ensures
            r == self.aborted,
    {
        self.aborted
    }

    /// No agent is to be used any more.
    pub fn shutdown(&mut self)
        requires
            old(self).wf(),
        ensures
            final(self).wf(),
            final(self).same_agents(*old(self)),
            final(self).states() == stepped(old(self).states(), PoolStep::Shutdown),
    {
        let ghost before = *self;
        let mut i: usize = 0;
        while i < self.agents.len()
            invariant
                self.wf(),
                self.same_agents(before),
                i <= self.agents@.len(),
                forall|j: int|
                    0 <= j < i ==> (#[trigger] self.states()[j]) == AgentState::Unhealthy,
            decreases self.agents@.len() - i,
        {
            self.set_state(i, AgentState::Unhealthy);
            i = i + 1;
        }
        proof {
            assert(self.states() =~= Seq::new(
                before.agents@.len(),
                |i: int| AgentState::Unhealthy,
            ));
        }
    }
}

// ---------------------------------------------------------------------------
// Laws
// ---------------------------------------------------------------------------

/// With a password, SSH can log in with it: password login is not switched off, and the program that
/// SSH asks is handed the password. Without one, SSH asks for nothing.
pub proof fn lemma_password_reaches_ssh(config: Config, askpass: Seq<char>)
    ensures
        config.password matches Some(p) ==> {
            &&& !(login_options(config) + fixed_args()).contains("BatchMode=yes"@)
            &&& ssh_environment(config, askpass).contains(("SSH_ASKPASS"@, askpass))
            &&& ssh_environment(config, askpass).contains(("SSH_ASKPASS_REQUIRE"@, "force"@))
            &&& ssh_environment(config, askpass).contains((ASKPASS_VARIABLE@, p@))
        },
        config.password is None ==> {
            &&& login_options(config).contains("BatchMode=yes"@)
            &&& ssh_environment(config, askpass).len() == 0
        },
        ssh_arguments(config).take((login_options(config) + fixed_args()).len() as int)
            == login_options(config) + fixed_args(),
{
    reveal_strlit("-T");
    reveal_strlit("-o");
    reveal_strlit("-p");
    reveal_strlit("BatchMode=yes");
    reveal_strlit("StrictHostKeyChecking=accept-new");
    reveal_strlit("ServerAliveInterval=60");
    reveal_strlit("ServerAliveCountMax=3");
    let front = login_options(config) + fixed_args();
    assert(ssh_arguments(config).take(front.len() as int) =~= front);
    match config.password {
        Some(p) => {
            assert("BatchMode=yes"@.len() == 13);
            assert forall|i: int| 0 <= i < front.len() implies front[i].len() != 13 by {
                if i > 0 {
                    assert(front[i] == fixed_args()[i - 1]);
                }
            }
            let env = ssh_environment(config, askpass);
            assert(env[0] == ("SSH_ASKPASS"@, askpass));
            assert(env[1] == ("SSH_ASKPASS_REQUIRE"@, "force"@));
            assert(env[2] == (ASKPASS_VARIABLE@, p@));
        },
        None => {
            assert(login_options(config)[2] == "BatchMode=yes"@);
        },
    }
}

/// An agent that was given up is never used again, whatever happens, as long as it is not started
/// anew.
pub proof fn lemma_unhealthy_stays(states: Seq<AgentState>, step: PoolStep, i: int)
    requires
        0 <= i < states.len(),
        states[i] == AgentState::Unhealthy,
        names_an_agent(step, states.len()),
        !(step matches PoolStep::Start(j, ok) && j == i && ok),
    ensures
        stepped(states, step)[i] == AgentState::Unhealthy,
{
    states.index_of_first_ensures(AgentState::Ready);
}

/// An agent that was taken is not taken again before it is given back.
pub proof fn lemma_agent_is_taken_once(states: Seq<AgentState>)
    requires
        first_ready(states) is Some,
    ensures
        first_ready(stepped(states, PoolStep::Acquire)) != first_ready(states),
{
    states.index_of_first_ensures(AgentState::Ready);
    let after = stepped(states, PoolStep::Acquire);
    after.index_of_first_ensures(AgentState::Ready);
}

/// Taking an agent and giving it back leaves all agents as they were.
pub proof fn lemma_release_undoes_acquire(states: Seq<AgentState>)
    requires
        first_ready(states) is Some,
    ensures
        stepped(
            stepped(states, PoolStep::Acquire),
            PoolStep::Release(first_ready(states).unwrap()),
        ) == states,
{
    states.index_of_first_ensures(AgentState::Ready);
    let i = first_ready(states).unwrap();
    assert(stepped(stepped(states, PoolStep::Acquire), PoolStep::Release(i)) =~= states);
}

/// Once no agent can be used, none can be taken.
pub proof fn lemma_none_healthy_none_ready(states: Seq<AgentState>)
    requires
        healthy(states) == 0,
    ensures
        first_ready(states) is None,
    decreases states.len(),
{
    states.index_of_first_ensures(AgentState::Ready);
    lemma_all_unhealthy(states);
}

proof fn lemma_all_unhealthy(states: Seq<AgentState>)
    requires
        healthy(states) == 0,
    ensures
        forall|i: int| 0 <= i < states.len() ==> (#[trigger] states[i]) == AgentState::Unhealthy,
    decreases states.len(),
{
    if states.len() > 0 {
        lemma_all_unhealthy(states.drop_last());
        assert forall|i: int| 0 <= i < states.len() implies (#[trigger] states[i])
            == AgentState::Unhealthy by {
            if i < states.len() - 1 {
                assert(states.drop_last()[i] == states[i]);
            }
        }
    }
}

/// The agents that can be used are counted: none of them exactly if all were given up, all of them
/// exactly if none was, and giving up one that could be used makes one less.
pub proof fn lemma_healthy_counts(states: Seq<AgentState>)
    ensures
        healthy(states) <= states.len(),
        healthy(states) == 0 <==> forall|i: int|
            0 <= i < states.len() ==> (#[trigger] states[i]) == AgentState::Unhealthy,
        healthy(states) == states.len() <==> forall|i: int|
            0 <= i < states.len() ==> (#[trigger] states[i]) != AgentState::Unhealthy,
        forall|i: int|
            0 <= i < states.len() && (#[trigger] states[i]) != AgentState::Unhealthy ==> healthy(
                stepped(states, PoolStep::GiveUp(i)),
            ) == healthy(states) - 1,
    decreases states.len(),
{
    if states.len() > 0 {
        let front = states.drop_last();
        lemma_healthy_counts(front);
        assert forall|i: int| 0 <= i < front.len() implies front[i] == states[i] by {}
        assert(states[states.len() - 1] == states.last());
        assert forall|i: int|
            0 <= i < states.len() && (#[trigger] states[i])
                != AgentState::Unhealthy implies healthy(stepped(states, PoolStep::GiveUp(i)))
            == healthy(states) - 1 by {
            let after = stepped(states, PoolStep::GiveUp(i));
            if i < front.len() {
                assert(front[i] == states[i]);
                assert(after.drop_last() =~= stepped(front, PoolStep::GiveUp(i)));
            } else {
                assert(after.drop_last() =~= front);
            }
        }
        if forall|i: int|
            0 <= i < states.len() ==> (#[trigger] states[i]) == AgentState::Unhealthy {
            assert forall|i: int| 0 <= i < front.len() implies (#[trigger] front[i])
                == AgentState::Unhealthy by {
                assert(front[i] == states[i]);
            }
        }
        if forall|i: int|
            0 <= i < states.len() ==> (#[trigger] states[i]) != AgentState::Unhealthy {
            assert forall|i: int| 0 <= i < front.len() implies (#[trigger] front[i])
                != AgentState::Unhealthy by {
                assert(front[i] == states[i]);
            }
        }
        if healthy(states) == 0 {
            assert forall|i: int| 0 <= i < states.len() implies (#[trigger] states[i])
                == AgentState::Unhealthy by {
                if i < front.len() {
                    assert(front[i] == states[i]);
                }
            }
        }
        if healthy(states) == states.len() {
            assert forall|i: int| 0 <= i < states.len() implies (#[trigger] states[i])
                != AgentState::Unhealthy by {
                if i < front.len() {
                    assert(front[i] == states[i]);
                }
            }
        }
    }
}

/// A new pool has as many agents as connections were asked for, and none of them can be taken before
/// it was started.
pub proof fn lemma_new_pool_waits_for_starts(config: Config, now: u64, r: AgentPool)
    requires
        call_ensures(AgentPool::new, (config, now), r),
    ensures
        r.agents@.len() == config.tunnels,
        r.states().len() == config.tunnels,
        !r.states().contains(AgentState::Ready),
        healthy(r.states()) == config.tunnels,
        r.config == config,
        !r.aborted,
{
    lemma_healthy_counts(r.states());
    assert(r.states().len() == r.agents@.len());
}

/// An agent that answered can be taken, and one that did not is given up; the others are left alone.
/// A failed start is reported as what it was.
pub proof fn lemma_started_agent_is_ready(
    p: &mut AgentPool,
    id: usize,
    event: StartEvent,
    r: Result<(), StrawsError>,
)
    requires
        old(p).wf(),
        id < old(p).agents@.len(),
        call_ensures(AgentPool::started, (p, id, event), r),
    ensures
        final(p).states()[id as int] == if event is Answered {
            AgentState::Ready
        } else {
            AgentState::Unhealthy
        },
        forall|i: int|
            0 <= i < old(p).agents@.len() && i != id ==> #[trigger] final(p).states()[i] == old(p).states()[i],
        r is Ok <==> event is Answered,
        event is NoProcess || event is NoStdin || event is NoStdout ==> r is Err && r->Err_0@ is Connection,
        event is TimedOut ==> r is Err && r->Err_0@ is Stall,
        event matches StartEvent::Failed(e) ==> (r matches Err(x) && x@ == e@),
{
}

/// The transfer goes on exactly if an agent could be started.
pub proof fn lemma_one_agent_is_enough(successes: usize, r: Result<(), StrawsError>)
    requires
        call_ensures(AgentPool::start_outcome, (successes,), r),
    ensures
        r is Ok <==> successes >= 1,
        r is Err ==> r->Err_0@ == ErrorView::AllAgentsUnhealthy,
{
}

/// Agents are started in batches of six.
pub proof fn lemma_starts_pause_after_each_batch(n: usize, k: usize, a: bool, b: bool)
    requires
        n + k <= usize::MAX,
        call_ensures(AgentPool::pauses_after, (n,), a),
        call_ensures(AgentPool::pauses_after, ((n + k) as usize,), b),
    ensures
        n == 0 ==> a,
        a && 0 < k < 6 ==> !b,
        a && k == 6 ==> b,
{
}

/// An agent that is taken is the first that is free, and is free no more; there is none to be taken
/// exactly if none is free.
pub proof fn lemma_first_free_agent_is_taken(p: &mut AgentPool, r: Option<usize>, q: &AgentPool, f: bool)
    requires
        old(p).wf(),
        *q == *old(p),
        call_ensures(AgentPool::acquire, (p,), r),
        call_ensures(AgentPool::has_available, (q,), f),
    ensures
        f <==> r is Some,
        f <==> exists|i: int|
            0 <= i < old(p).states().len() && (#[trigger] old(p).states()[i]) == AgentState::Ready,
        r matches Some(id) ==> {
            &&& id < old(p).states().len()
            &&& old(p).states()[id as int] == AgentState::Ready
            &&& final(p).states() == old(p).states().update(id as int, AgentState::Busy)
            &&& forall|i: int|
                0 <= i < id ==> (#[trigger] old(p).states()[i]) != AgentState::Ready
        },
        r is None ==> final(p).states() == old(p).states(),
{
    old(p).states().index_of_first_ensures(AgentState::Ready);
    if f {
        let s = old(p).states();
        let i = choose|i: int| 0 <= i < s.len() && s[i] == AgentState::Ready;
        assert(s[i] == AgentState::Ready);
    }
}

/// Giving back, giving up and stopping: an agent that works is free again after it is given back;
/// one that is given up never is; and after a stop none can be used. The others are left alone.
pub proof fn lemma_agents_are_given_back_or_up(
    a: &mut AgentPool,
    b: &mut AgentPool,
    c: &mut AgentPool,
    id: usize,
    i: int,
    n: usize,
)
    requires
        old(a).wf(),
        old(b).wf(),
        old(c).wf(),
        id < old(a).agents@.len(),
        id < old(b).agents@.len(),
        0 <= i,
        call_ensures(AgentPool::release, (a, id), ()),
        call_ensures(AgentPool::mark_unhealthy, (b, id), ()),
        call_ensures(AgentPool::shutdown, (c,), ()),
    ensures
        old(a).states()[id as int] != AgentState::Unhealthy ==> final(a).states()[id as int]
            == AgentState::Ready,
        old(a).states()[id as int] == AgentState::Unhealthy ==> final(a).states()[id as int]
            == AgentState::Unhealthy,
        i < old(a).states().len() && i != id ==> final(a).states()[i] == old(a).states()[i],
        final(b).states()[id as int] == AgentState::Unhealthy,
        i < old(b).states().len() && i != id ==> final(b).states()[i] == old(b).states()[i],
        i < old(c).states().len() ==> final(c).states()[i] == AgentState::Unhealthy,
        healthy(final(c).states()) == 0,
{
    lemma_healthy_counts(final(c).states());
}

/// The arguments of SSH: they end with the host and the command that starts the agent, the port and
/// the key are the ones that were asked for, and nothing is there that was not.
pub proof fn lemma_ssh_is_told_where_to_go(config: &Config, r: Vec<String>)
    requires
        call_ensures(ssh_args, (config,), r),
    ensures
        ({
            let a = text::texts(r@);
            let n = a.len();
            let front = if config.password is None {
                10int
            } else {
                8int
            };
            let flags = (if config.compress {
                1int
            } else {
                0int
            }) + (if config.identity is Some {
                2int
            } else {
                0int
            });
            &&& n == front + 1 + flags + 2
            &&& a[0] == "-T"@
            &&& a[front - 1] == "-p"@
            &&& text::digits_number(a[front], 10) == config.port
            &&& config.compress ==> a[front + 1] == "-C"@
            &&& config.identity matches Some(key) ==> a[n - 4] == "-i"@ && a[n - 3] == key@
            &&& a[n - 2] == match config.remote.user {
                Some(u) => u@ + "@"@ + config.remote.host@,
                None => config.remote.host@,
            }
            &&& a[n - 1] == python::command_for(python::PYTHON_AGENT@)
            &&& a.contains("StrictHostKeyChecking=accept-new"@)
            &&& a.contains("ServerAliveInterval=60"@)
            &&& a.contains("ServerAliveCountMax=3"@)
        }),
{
    let a = text::texts(r@);
    text::lemma_number_is_written(config.port as nat, 10);
    let front = if config.password is None {
        10int
    } else {
        8int
    };
    assert(a[front - 6] == "StrictHostKeyChecking=accept-new"@);
    assert(a[front - 4] == "ServerAliveInterval=60"@);
    assert(a[front - 2] == "ServerAliveCountMax=3"@);
}

/// What is kept of an agent's complaints is their end, no more of it than there is room for, and all
/// of it where there is room.
pub proof fn lemma_recent_complaints_are_kept(a: &mut Agent, complaint: &str)
    requires
        call_ensures(Agent::note_stderr, (a, complaint), ()),
    ensures
        ({
            let all = old(a).stderr@ + complaint@;
            let kept = final(a).stderr@;
            &&& encode_utf8(kept).len() <= 5000
            &&& kept.len() <= all.len() && kept == all.skip(all.len() - kept.len())
            &&& encode_utf8(all).len() <= 5000 ==> kept == all
            &&& kept.len() < all.len() ==> encode_utf8(all.skip(all.len() - kept.len() - 1)).len()
                > 5000
        }),
        final(a).state == old(a).state,
{
    lemma_back_is_an_end(old(a).stderr@ + complaint@, 5000);
}

proof fn lemma_back_is_an_end(s: Seq<char>, n: nat)
    ensures
        encode_utf8(back(s, n)).len() <= n,
        back(s, n).len() <= s.len(),
        back(s, n) == s.skip(s.len() - back(s, n).len()),
        back(s, n).len() < s.len() ==> encode_utf8(s.skip(s.len() - back(s, n).len() - 1)).len() > n,
    decreases s.len(),
{
    if encode_utf8(s).len() <= n {
        assert(s.skip(0) =~= s);
    } else {
        let t = s.drop_first();
        lemma_back_is_an_end(t, n);
        let k = back(t, n).len();
        assert(s.skip(s.len() - k) =~= t.skip(t.len() - k));
        if k < t.len() {
            assert(s.skip(s.len() - k - 1) =~= t.skip(t.len() - k - 1));
        } else {
            assert(s.skip(0) =~= s);
        }
    }
}

/// What an agent sends is counted once: the data of a response, and the bytes of a file.
pub proof fn lemma_bytes_are_counted_once(
    a: &mut Agent,
    reader: ResponseReader,
    bytes: Vec<u8>,
    now: u64,
    r: Result<ResponseReader, StrawsError>,
    b: &mut Agent,
    stream: &mut StreamReader,
    piece: &[u8],
    q: Result<Piece, StrawsError>,
)
    requires
        bytes@.len() == reader@.wants(),
        old(stream).wf(),
        piece@.len() == old(stream).spec_wants(),
        old(a).bytes_transferred + bytes@.len() <= u64::MAX,
        old(b).bytes_transferred + piece@.len() <= u64::MAX,
        call_ensures(Agent::take_response, (a, reader, bytes, now), r),
        call_ensures(Agent::take_piece, (b, stream, piece, now), q),
    ensures
        final(a).bytes_transferred == old(a).bytes_transferred + (if reader@ is Data {
            bytes@.len() as int
        } else {
            0int
        }),
        reader@ is Data ==> (r matches Ok(next) && next@ is Complete && next@->Complete_data
            == bytes@),
        final(b).bytes_transferred == old(b).bytes_transferred + (if *old(stream) is Data {
            piece@.len() as int
        } else {
            0int
        }),
        final(a).state == old(a).state && final(b).state == old(b).state,
{
}

/// What is sent to an agent is understood as what was asked for.
pub proof fn lemma_agent_is_asked(
    path: &str,
    offset: u64,
    length: u64,
    with_md5: bool,
    req: &Request,
    a: (Vec<u8>, ResponseReader),
    b: (Vec<u8>, StreamReader),
    c: (Vec<u8>, FindReader),
    first: Request,
)
    requires
        encode_utf8(path@).len() < 65536,
        call_ensures(Agent::request, (req,), a),
        call_ensures(Agent::stream_read, (path, offset, length), b),
        call_ensures(Agent::find, (path, with_md5), c),
        call_ensures(ping, (), first),
    ensures
        a.0@ == protocol::request_bytes(req@),
        protocol::request_of(b.0@) == protocol::plain_request(OpCode::Read, path@, offset, length),
        protocol::request_of(c.0@).op == OpCode::Find && protocol::request_of(c.0@).path == path@,
        protocol::request_of(c.0@).offset == 1 <==> with_md5,
        first.op == OpCode::Read && first.length == 0,
{
    let rd = protocol::plain_request(OpCode::Read, path@, offset, length);
    protocol::lemma_request_is_understood(rd, Seq::empty());
    assert(protocol::request_bytes(rd) + Seq::<u8>::empty() =~= protocol::request_bytes(rd));
    let flag: u64 = if with_md5 {
        1
    } else {
        0
    };
    let fd = protocol::plain_request(OpCode::Find, path@, flag, 0);
    protocol::lemma_request_is_understood(fd, Seq::empty());
    assert(protocol::request_bytes(fd) + Seq::<u8>::empty() =~= protocol::request_bytes(fd));
}

/// An agent can be had exactly if it is ready; a pool has healthy agents exactly if one of them was
/// not given up; and a pool is aborted once it was told to, and keeps its agents.
pub proof fn lemma_what_a_pool_says(
    agent: &Agent,
    available: bool,
    pool: &AgentPool,
    count: usize,
    a: &mut AgentPool,
    aborted: bool,
)
    requires
        call_ensures(Agent::is_available, (agent,), available),
        call_ensures(AgentPool::healthy_count, (pool,), count),
        call_ensures(AgentPool::abort, (a,), ()),
        call_ensures(AgentPool::is_aborted, (pool,), aborted),
    ensures
        available <==> agent.state is Ready,
        count <= pool.agents@.len(),
        count == 0 <==> forall|i: int|
            0 <= i < pool.agents@.len() ==> (#[trigger] pool.states()[i]) is Unhealthy,
        count == pool.agents@.len() <==> forall|i: int|
            0 <= i < pool.agents@.len() ==> !((#[trigger] pool.states()[i]) is Unhealthy),
        *pool == *final(a) ==> aborted,
        final(a).agents == old(a).agents && final(a).config == old(a).config,
{
    lemma_healthy_bounds(pool.states());
}

proof fn lemma_healthy_bounds(states: Seq<AgentState>)
    ensures
        healthy(states) <= states.len(),
        healthy(states) == 0 <==> forall|i: int|
            0 <= i < states.len() ==> (#[trigger] states[i]) is Unhealthy,
        healthy(states) == states.len() <==> forall|i: int|
            0 <= i < states.len() ==> !((#[trigger] states[i]) is Unhealthy),
    decreases states.len(),
{
    if states.len() > 0 {
        let front = states.drop_last();
        lemma_healthy_bounds(front);
        assert(states[states.len() - 1] == states.last());
        assert(forall|i: int| 0 <= i < front.len() ==> #[trigger] front[i] == states[i]);
        assert(forall|i: int| 0 <= i < front.len() ==> #[trigger] states[i] == front[i]);
    }
}

/// What SSH finds in its environment: nothing without a password, and with one who is to be asked for
/// it, that nobody else is, and the password.
pub proof fn lemma_ssh_finds_the_password(
    config: &Config,
    askpass: &str,
    r: Vec<(String, String)>,
)
    requires
        call_ensures(ssh_env, (config, askpass), r),
    ensures
        config.password is None ==> r@.len() == 0,
        config.password matches Some(p) ==> {
            &&& r@.len() == 3
            &&& r@[0].0@ == "SSH_ASKPASS"@ && r@[0].1@ == askpass@
            &&& r@[1].0@ == "SSH_ASKPASS_REQUIRE"@ && r@[1].1@ == "force"@
            &&& r@[2].0@ == ASKPASS_VARIABLE@ && r@[2].1@ == p@
        },
{
    let v = r@.map_values(|v: (String, String)| (v.0@, v.1@));
    assert(v.len() == r@.len());
    if config.password is Some {
        assert(v[0] == (r@[0].0@, r@[0].1@));
        assert(v[1] == (r@[1].0@, r@[1].1@));
        assert(v[2] == (r@[2].0@, r@[2].1@));
    }
}

} // verus!
