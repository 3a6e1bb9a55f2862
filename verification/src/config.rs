//! The command line: sizes, remote locations, and the configuration of a transfer.

use vstd::prelude::*;
use vstd::string::*;

use crate::error::{ErrorView, StrawsError};
use crate::text;

verus! {

/// The chunk size where none is asked for: 16 MiB.
pub const DEFAULT_CHUNK_SIZE: u64 = 16_777_216;

/// The number of connections where none is asked for.
pub const DEFAULT_TUNNELS: usize = 8;

/// The port where none is asked for.
pub const DEFAULT_PORT: u16 = 22;

/// The smallest chunk: a chunk holds at least one byte.
pub const MIN_CHUNK_SIZE: u64 = 1;

// ---------------------------------------------------------------------------
// Sizes
// ---------------------------------------------------------------------------

/// Why a text is not a number.
pub enum NumberFault {
    Empty,
    InvalidDigit,
    TooLarge,
}

/// The value of a decimal digit.
pub open spec fn digit_value(c: char) -> Option<nat> {
    if '0' <= c <= '9' {
        Some((c as u32 - '0' as u32) as nat)
    } else {
        None
    }
}

/// `value` continued by the digits of `s`, as long as it fits 64 bits.
pub open spec fn digits_value(s: Seq<char>, value: nat) -> Result<nat, NumberFault>
    decreases s.len(),
{
    if s.len() == 0 {
        Ok(value)
    } else {
        match digit_value(s[0]) {
            None => Err(NumberFault::InvalidDigit),
            Some(d) => if value * 10 + d > u64::MAX {
                Err(NumberFault::TooLarge)
            } else {
                digits_value(s.drop_first(), value * 10 + d)
            },
        }
    }
}

/// The number that a text writes out: digits, with or without a `+` in front.
pub open spec fn number_value(s: Seq<char>) -> Result<nat, NumberFault> {
    if s.len() == 0 {
        Err(NumberFault::Empty)
    } else if s.len() > 1 && s[0] == '+' {
        digits_value(s.drop_first(), 0)
    } else {
        digits_value(s, 0)
    }
}

/// What the user is told of a text that is not a number.
pub open spec fn fault_text(f: NumberFault) -> Seq<char> {
    match f {
        NumberFault::Empty => "cannot parse integer from empty string"@,
        NumberFault::InvalidDigit => "invalid digit found in string"@,
        NumberFault::TooLarge => "number too large to fit in target type"@,
    }
}

fn parse_number(v: &Vec<char>, len: usize) -> (r: Result<u64, NumberFault>)
    requires
        len <= v@.len(),
    ensures
        match r {
            Ok(n) => number_value(v@.take(len as int)) == Ok::<nat, NumberFault>(n as nat),
            Err(f) => number_value(v@.take(len as int)) == Err::<nat, NumberFault>(f),
        },
{
    let ghost s = v@.take(len as int);
    if len == 0 {
        return Err(NumberFault::Empty);
    }
    let mut i: usize = if len > 1 && v[0] == '+' {
        1
    } else {
        0
    };
    let mut value: u64 = 0;
    proof {
        assert(s.skip(0) =~= s);
        assert(s.skip(1) =~= s.drop_first());
    }
    while i < len
        invariant
            i <= len <= v@.len(),
            s == v@.take(len as int),
            number_value(s) == digits_value(s.skip(i as int), value as nat),
        decreases len - i,
    {
        let c: char = v[i];
        proof {
            assert(s.skip(i as int)[0] == c);
            assert(s.skip(i as int).drop_first() =~= s.skip(i + 1));
        }
        if !('0' <= c && c <= '9') {
            return Err(NumberFault::InvalidDigit);
        }
        let d: u64 = (c as u32 - '0' as u32) as u64;
        if value > (u64::MAX - d) / 10 {
            return Err(NumberFault::TooLarge);
        }
        value = value * 10 + d;
        i = i + 1;
    }
    Ok(value)
}

/// What the last character of a size multiplies the number by; zero where it is no suffix.
pub open spec fn suffix_factor(c: char) -> nat {
    if c == 'K' || c == 'k' {
        1024
    } else if c == 'M' || c == 'm' {
        1_048_576
    } else if c == 'G' || c == 'g' {
        1_073_741_824
    } else {
        0
    }
}

/// The number in front of the suffix of a size that is not empty, and the factor of the suffix.
pub open spec fn size_parts(t: Seq<char>) -> (Seq<char>, nat) {
    if suffix_factor(t.last()) > 0 {
        (t.drop_last(), suffix_factor(t.last()))
    } else {
        (t, 1)
    }
}

/// The size that a text writes out: a number of bytes, of KiB (`K`), MiB (`M`) or GiB (`G`).
pub open spec fn size_value(s: Seq<char>) -> Result<nat, Seq<char>> {
    let t = text::trimmed(s);
    if t.len() == 0 {
        Err("empty size"@)
    } else {
        match number_value(size_parts(t).0) {
            Ok(n) => Ok(n * size_parts(t).1),
            Err(f) => Err("invalid size '"@ + t + "': "@ + fault_text(f)),
        }
    }
}

fn factor_of(c: char) -> (r: u64)
    ensures
        r == suffix_factor(c),
{
    if c == 'K' || c == 'k' {
        1024
    } else if c == 'M' || c == 'm' {
        1_048_576
    } else if c == 'G' || c == 'g' {
        1_073_741_824
    } else {
        0
    }
}

fn number_and_factor(v: &Vec<char>) -> (r: (Result<u64, NumberFault>, u64))
    requires
        v@.len() > 0,
    ensures
        r.1 == size_parts(v@).1,
        match r.0 {
            Ok(n) => number_value(size_parts(v@).0) == Ok::<nat, NumberFault>(n as nat),
            Err(f) => number_value(size_parts(v@).0) == Err::<nat, NumberFault>(f),
        },
{
    let n: usize = v.len();
    let k = factor_of(v[n - 1]);
    proof {
        assert(v@.take(n as int) =~= v@);
        assert(v@.take(n - 1) =~= v@.drop_last());
    }
    if k > 0 {
        (parse_number(v, n - 1), k)
    } else {
        (parse_number(v, n), 1)
    }
}

/// Whether the size that a text writes out fits 64 bits (a text that is no size does).
pub open spec fn size_in_range(s: Seq<char>) -> bool {
    size_value(s) matches Ok(n) ==> n <= u64::MAX
}

/// Whether the size that a text writes out fits 64 bits (a text that is no size does).
pub fn size_fits(s: &str) -> (r: bool)
    ensures
        r == size_in_range(s@),
{
    let v = text::chars_of(text::trim(s).as_str());
    if v.len() == 0 {
        return true;
    }
    match number_and_factor(&v) {
        (Ok(n), k) => {
            proof {
                assert(k > 0);
                assert(n as int * k as int <= u64::MAX <==> n <= u64::MAX / k) by (nonlinear_arith)
                    requires
                        k > 0,
                ;
            }
            n <= u64::MAX / k
        },
        (Err(_), _) => true,
    }
}

/// The size that a text writes out. See `size_fits` for the sizes that are out of range.
pub fn parse_size(s: &str) -> (r: Result<u64, String>)
    requires
        size_in_range(s@),
    ensures
        match r {
            Ok(n) => size_value(s@) == Ok::<nat, Seq<char>>(n as nat),
            Err(m) => size_value(s@) == Err::<nat, Seq<char>>(m@),
        },
{
    let t = text::trim(s);
    let v = text::chars_of(t.as_str());
    if v.len() == 0 {
        return Err("empty size".to_owned());
    }
    match number_and_factor(&v) {
        (Ok(n), k) => Ok(n * k),
        (Err(f), _) => {
            let why: &str = match f {
                NumberFault::Empty => "cannot parse integer from empty string",
                NumberFault::InvalidDigit => "invalid digit found in string",
                NumberFault::TooLarge => "number too large to fit in target type",
            };
            Err(text::cat4("invalid size '", t.as_str(), "': ", why))
        },
    }
}

proof fn lemma_digits_behind(a: Seq<char>, d: nat, value: nat)
    requires
        d < 10,
    ensures
        digits_value(a.push(text::digit_char(d)), value) == match digits_value(a, value) {
            Ok(v) => if v * 10 + d > u64::MAX {
                Err(NumberFault::TooLarge)
            } else {
                Ok(v * 10 + d)
            },
            Err(f) => Err(f),
        },
    decreases a.len(),
{
    let s = a.push(text::digit_char(d));
    assert(digit_value(text::digit_char(d)) == Some(d));
    if a.len() == 0 {
        assert(s[0] == text::digit_char(d));
        assert(s.drop_first() =~= Seq::<char>::empty());
        reveal_with_fuel(digits_value, 2);
    } else {
        assert(s[0] == a[0]);
        assert(s.drop_first() =~= a.drop_first().push(text::digit_char(d)));
        match digit_value(a[0]) {
            Some(x) => {
                if value * 10 + x <= u64::MAX {
                    lemma_digits_behind(a.drop_first(), d, value * 10 + x);
                }
            },
            None => {},
        }
    }
}

proof fn lemma_decimal_digits(n: nat)
    requires
        n <= u64::MAX,
    ensures
        digits_value(text::decimal_text(n), 0) == Ok::<nat, NumberFault>(n),
        text::decimal_text(n).len() > 0,
        forall|i: int|
            0 <= i < text::decimal_text(n).len() ==> '0' <= #[trigger] text::decimal_text(n)[i]
                <= '9',
    decreases n,
{
    let s = text::decimal_text(n);
    let d = n % 10;
    if n < 10 {
        lemma_digits_behind(Seq::empty(), n, 0);
        assert(s =~= Seq::<char>::empty().push(text::digit_char(n)));
    } else {
        lemma_decimal_digits(n / 10);
        let a = text::decimal_text(n / 10);
        assert(s =~= a.push(text::digit_char(d)));
        lemma_digits_behind(a, d, 0);
        assert forall|i: int| 0 <= i < s.len() implies '0' <= #[trigger] s[i] <= '9' by {
            if i < a.len() {
                assert(s[i] == a[i]);
            }
        }
    }
}

proof fn lemma_nothing_to_trim(s: Seq<char>)
    requires
        s.len() > 0,
        !text::is_space(s[0]),
        !text::is_space(s.last()),
    ensures
        text::trimmed(s) == s,
{
}

/// A size that was written as a number, with or without a suffix, is read as that number of units.
pub proof fn lemma_size_is_read_back(n: nat)
    requires
        n <= u64::MAX,
    ensures
        size_value(text::decimal_text(n)) == Ok::<nat, Seq<char>>(n),
        size_value(text::decimal_text(n).push('K')) == Ok::<nat, Seq<char>>(n * 1024),
        size_value(text::decimal_text(n).push('M')) == Ok::<nat, Seq<char>>(n * 1_048_576),
        size_value(text::decimal_text(n).push('G')) == Ok::<nat, Seq<char>>(n * 1_073_741_824),
{
    let s = text::decimal_text(n);
    lemma_decimal_digits(n);
    assert('0' <= s[0] <= '9');
    assert('0' <= s[s.len() - 1] <= '9');
    assert(number_value(s) == digits_value(s, 0));
    lemma_nothing_to_trim(s);
    assert(n * 1 == n);
    lemma_suffixed_size(s, n, 'K');
    lemma_suffixed_size(s, n, 'M');
    lemma_suffixed_size(s, n, 'G');
}

proof fn lemma_suffixed_size(s: Seq<char>, n: nat, suffix: char)
    requires
        s.len() > 0,
        '0' <= s[0] <= '9',
        number_value(s) == Ok::<nat, NumberFault>(n),
        suffix == 'K' || suffix == 'M' || suffix == 'G',
    ensures
        size_value(s.push(suffix)) == Ok::<nat, Seq<char>>(n * suffix_factor(suffix)),
{
    let t = s.push(suffix);
    assert(t[0] == s[0]);
    assert(t.last() == suffix);
    lemma_nothing_to_trim(t);
    assert(t.drop_last() =~= s);
}

// ---------------------------------------------------------------------------
// Remote locations
// ---------------------------------------------------------------------------

/// A location on another host: `[user@]host:path`.
#[derive(Debug)]
pub struct RemoteSpec {
    pub user: Option<String>,
    pub host: String,
    pub path: String,
}

/// A remote location, with its texts as sequences of characters.
pub struct RemoteView {
    pub user: Option<Seq<char>>,
    pub host: Seq<char>,
    pub path: Seq<char>,
}

impl View for RemoteSpec {
    type V = RemoteView;

    open spec fn view(&self) -> RemoteView {
        RemoteView { user: self.user.deep_view(), host: self.host@, path: self.path@ }
    }
}

impl Clone for RemoteSpec {
    fn clone(&self) -> (r: Self)
        ensures
            r == *self,
    {
        RemoteSpec {
            user: text::copy_option(&self.user),
            host: self.host.clone(),
            path: self.path.clone(),
        }
    }
}

/// A letter of the English alphabet.
pub open spec fn is_letter(c: char) -> bool {
    'a' <= c <= 'z' || 'A' <= c <= 'Z'
}

/// The remote location that a text names. The first `:` ends the host; a single letter in front
/// of it is a drive and no host. The first `@` of the host ends the user.
pub open spec fn remote_of(s: Seq<char>) -> Option<RemoteView> {
    match s.index_of_first(':') {
        None => None,
        Some(colon) => if colon == 1 && is_letter(s[0]) {
            None
        } else {
            let place = s.take(colon);
            let path = s.skip(colon + 1);
            match place.index_of_first('@') {
                Some(at) => Some(
                    RemoteView { user: Some(place.take(at)), host: place.skip(at + 1), path },
                ),
                None => Some(RemoteView { user: None, host: place, path }),
            }
        },
    }
}

/// The part of a remote location that SSH is given: `[user@]host`.
pub open spec fn user_host_text(r: RemoteView) -> Seq<char> {
    match r.user {
        Some(u) => u + "@"@ + r.host,
        None => r.host,
    }
}

impl RemoteSpec {
    /// The remote location that a text names, if it names one.
    pub fn parse(s: &str) -> (r: Option<Self>)
        ensures
            match r {
                Some(spec) => remote_of(s@) == Some(spec@),
                None => remote_of(s@) is None,
            },
    {
        let v = text::chars_of(s);
        let colon: usize = match text::find_char(&v, ':') {
            Some(i) => i,
            None => return None,
        };
        if colon == 1 {
            let c: char = v[0];
            if ('a' <= c && c <= 'z') || ('A' <= c && c <= 'Z') {
                return None;
            }
        }
        let place_text = text::text_between(&v, 0, colon);
        let place = text::chars_of(place_text.as_str());
        let end: usize = v.len();
        let path = text::text_between(&v, colon + 1, end);
        proof {
            assert(place@ =~= s@.take(colon as int));
            assert(path@ =~= s@.skip(colon + 1));
        }
        match text::find_char(&place, '@') {
            Some(at) => {
                let user = text::text_between(&place, 0, at);
                let place_end: usize = place.len();
                let host = text::text_between(&place, at + 1, place_end);
                proof {
                    assert(user@ =~= place@.take(at as int));
                    assert(host@ =~= place@.skip(at + 1));
                }
                Some(RemoteSpec { user: Some(user), host, path })
            },
            None => Some(RemoteSpec { user: None, host: place_text, path }),
        }
    }

    /// The part that SSH is given: `[user@]host`.
    pub fn user_host(&self) -> (r: String)
        ensures
            r@ == user_host_text(self@),
    {
        match &self.user {
            Some(u) => text::cat3(u.as_str(), "@", self.host.as_str()),
            None => self.host.clone(),
        }
    }
}

/// A remote location is written as it was read: `[user@]host`, a `:` and the path.
pub proof fn lemma_remote_is_written_back(s: Seq<char>)
    requires
        remote_of(s) is Some,
    ensures
        user_host_text(remote_of(s).unwrap()) + ":"@ + remote_of(s).unwrap().path == s,
{
    reveal_strlit(":");
    reveal_strlit("@");
    s.index_of_first_ensures(':');
    let colon = s.index_of_first(':').unwrap();
    let place = s.take(colon);
    place.index_of_first_ensures('@');
    let r = remote_of(s).unwrap();
    assert(user_host_text(r) =~= place);
    assert(user_host_text(r) + ":"@ + r.path =~= s);
}

/// A host that is no single letter and holds no `:`, with a user that holds neither `:` nor `@`
/// where there is one, is read as it was written.
pub proof fn lemma_remote_is_read_back(r: RemoteView)
    requires
        !r.host.contains(':'),
        r.user is None ==> !r.host.contains('@') && !(r.host.len() == 1 && is_letter(r.host[0])),
        r.user matches Some(u) ==> !u.contains(':') && !u.contains('@'),
    ensures
        remote_of(user_host_text(r) + ":"@ + r.path) == Some(r),
{
    reveal_strlit(":");
    reveal_strlit("@");
    let place = user_host_text(r);
    let s = place + ":"@ + r.path;
    s.index_of_first_ensures(':');
    assert(s[place.len() as int] == ':');
    assert forall|i: int| 0 <= i < place.len() implies place[i] != ':' by {
        match r.user {
            Some(u) => {
                if i < u.len() {
                    assert(place[i] == u[i]);
                    assert(u.contains(u[i]));
                } else if i > u.len() {
                    assert(place[i] == r.host[i - u.len() - 1]);
                    assert(r.host.contains(r.host[i - u.len() - 1]));
                }
            },
            None => {
                assert(r.host.contains(r.host[i]));
            },
        }
    }
    assert forall|i: int| 0 <= i < place.len() implies s[i] != ':' by {
        assert(s[i] == place[i]);
    }
    assert(s.index_of_first(':') == Some(place.len() as int));
    assert(s.take(place.len() as int) =~= place);
    assert(s.skip(place.len() as int + 1) =~= r.path);
    place.index_of_first_ensures('@');
    match r.user {
        Some(u) => {
            assert(place[u.len() as int] == '@');
            assert forall|i: int| 0 <= i < u.len() implies place[i] != '@' by {
                assert(u.contains(u[i]));
            }
            assert(place.index_of_first('@') == Some(u.len() as int));
            assert(place.take(u.len() as int) =~= u);
            assert(place.skip(u.len() as int + 1) =~= r.host);
            if place.len() == 1 {
                assert(s[0] == '@');
            }
        },
        None => {
            assert(place.index_of_first('@') is None);
        },
    }
}

// ---------------------------------------------------------------------------
// The configuration
// ---------------------------------------------------------------------------

/// The way that the files go.
#[derive(Debug, Clone, Copy, PartialEq, Eq, Structural)]
pub enum Direction {
    Download,
    Upload,
}

/// What the command line asks for.
#[derive(Debug, Clone)]
pub struct Args {
    /// Where the files come from: local paths, or remote locations.
    pub sources: Vec<String>,
    /// Where the files go: a local path, or a remote location.
    pub destination: String,
    /// Number of parallel connections.
    pub tunnels: usize,
    /// Port of the SSH server.
    pub port: u16,
    /// Private key file.
    pub identity: Option<String>,
    /// Ask for the password.
    pub password_prompt: bool,
    /// File that holds the password.
    pub password_file: Option<String>,
    /// Environment variable that holds the password.
    pub password_env: String,
    /// Let SSH compress.
    pub compress: bool,
    /// Files above this size are split into pieces of this size.
    pub chunk_size: u64,
    /// Compare the digests of both sides.
    pub verify: bool,
    /// Transfer files that are there already, too.
    pub force: bool,
    /// Show no progress.
    pub no_progress: bool,
    /// File for the debug log.
    pub debug_log: Option<String>,
    /// Show the details of each file.
    pub verbose: bool,
}

/// The configuration of a transfer.
#[derive(Debug, Clone)]
pub struct Config {
    pub direction: Direction,
    pub remote: RemoteSpec,
    pub local_paths: Vec<String>,
    pub tunnels: usize,
    pub port: u16,
    pub identity: Option<String>,
    pub password: Option<String>,
    pub compress: bool,
    pub chunk_size: u64,
    pub verify: bool,
    pub force: bool,
    pub no_progress: bool,
    pub debug_log: Option<String>,
    pub verbose: bool,
}

/// The two ends of a transfer. Several remote paths stand in one text, with a NUL between each two.
pub struct Route {
    pub direction: Direction,
    pub remote: RemoteView,
    pub local_paths: Seq<Seq<char>>,
}

/// The sources that are remote, in order.
pub open spec fn remotes(sources: Seq<Seq<char>>) -> Seq<RemoteView>
    decreases sources.len(),
{
    if sources.len() == 0 {
        Seq::empty()
    } else {
        match remote_of(sources.last()) {
            Some(r) => remotes(sources.drop_last()).push(r),
            None => remotes(sources.drop_last()),
        }
    }
}

/// The two ends of a transfer, or why there are none: exactly one side has to be remote, and
/// remote sources have to share their host.
pub open spec fn route_of(sources: Seq<Seq<char>>, destination: Seq<char>) -> Result<
    Route,
    Seq<char>,
> {
    let from = remotes(sources);
    match remote_of(destination) {
        None => if from.len() == 0 {
            Err("At least one path must be remote (user@host:path)"@)
        } else if exists|i: int| 0 <= i < from.len() && (#[trigger] from[i]).host != from[0].host {
            Err("All remote sources must be from the same host"@)
        } else {
            Ok(
                Route {
                    direction: Direction::Download,
                    remote: RemoteView {
                        path: text::join_text(from.map_values(|r: RemoteView| r.path), "\0"@),
                        ..from[0]
                    },
                    local_paths: seq![destination],
                },
            )
        },
        Some(to) => if from.len() == 0 {
            Ok(Route { direction: Direction::Upload, remote: to, local_paths: sources })
        } else {
            Err("Cannot transfer between two remote hosts"@)
        },
    }
}

impl Config {
    /// The two ends of the transfer.
    pub open spec fn route(self) -> Route {
        Route {
            direction: self.direction,
            remote: self.remote@,
            local_paths: text::texts(self.local_paths@),
        }
    }

    /// The options that are taken over from the command line as they are.
    pub open spec fn keeps_options(self, args: Args) -> bool {
        &&& self.tunnels == args.tunnels
        &&& self.port == args.port
        &&& self.identity == args.identity
        &&& self.compress == args.compress
        &&& self.verify == args.verify
        &&& self.force == args.force
        &&& self.no_progress == args.no_progress
        &&& self.debug_log == args.debug_log
        &&& self.verbose == args.verbose
    }

    /// A configuration that a transfer can run with.
    pub open spec fn wf(self) -> bool {
        &&& self.tunnels >= 1
        &&& self.chunk_size >= MIN_CHUNK_SIZE
        &&& self.direction == Direction::Download ==> self.local_paths@.len() >= 1
    }

    /// The configuration that the command line and a password make.
    pub fn from_args(args: Args, password: Option<String>) -> (r: Result<Self, StrawsError>)
        ensures
            match r {
                Ok(c) => {
                    &&& route_of(text::texts(args.sources@), args.destination@)
                        == Ok::<Route, Seq<char>>(c.route())
                    &&& args.tunnels > 0
                    &&& c.keeps_options(args)
                    &&& c.password == password
                    &&& c.chunk_size == if args.chunk_size < MIN_CHUNK_SIZE {
                        MIN_CHUNK_SIZE
                    } else {
                        args.chunk_size
                    }
                    &&& c.wf()
                },
                Err(e) => match route_of(text::texts(args.sources@), args.destination@) {
                    Err(m) => e@ == ErrorView::Config(m),
                    Ok(_) => args.tunnels == 0 && e@ == ErrorView::Config(
                        "Tunnel count must be at least 1"@,
                    ),
                },
            },
    {
        let ghost sources = text::texts(args.sources@);
        let dest_remote = RemoteSpec::parse(args.destination.as_str());
        let found = remote_sources(&args.sources);
        let ghost from = remotes(sources);
        let direction: Direction;
        let remote: RemoteSpec;
        let local_paths: Vec<String>;
        match dest_remote {
            None => {
                if found.len() == 0 {
                    return Err(
                        StrawsError::Config(
                            "At least one path must be remote (user@host:path)".to_owned(),
                        ),
                    );
                }
                if !one_host(&found) {
                    return Err(
                        StrawsError::Config(
                            "All remote sources must be from the same host".to_owned(),
                        ),
                    );
                }
                let paths = paths_of(&found);
                let path = text::join(&paths, "\0");
                proof {
                    assert(text::texts(paths@) =~= from.map_values(|r: RemoteView| r.path));
                    assert(from[0] == found@[0]@);
                }
                direction = Direction::Download;
                remote = RemoteSpec {
                    user: text::copy_option(&found[0].user),
                    host: found[0].host.clone(),
                    path,
                };
                let mut only: Vec<String> = Vec::new();
                only.push(args.destination.clone());
                proof {
                    assert(text::texts(only@) =~= seq![args.destination@]);
                }
                local_paths = only;
            },
            Some(to) => {
                if found.len() > 0 {
                    return Err(
                        StrawsError::Config(
                            "Cannot transfer between two remote hosts".to_owned(),
                        ),
                    );
                }
                direction = Direction::Upload;
                remote = to;
                local_paths = text::copy_texts(&args.sources);
            },
        }
        if args.tunnels == 0 {
            return Err(StrawsError::Config("Tunnel count must be at least 1".to_owned()));
        }
        let chunk_size: u64 = if args.chunk_size < MIN_CHUNK_SIZE {
            MIN_CHUNK_SIZE
        } else {
            args.chunk_size
        };
        Ok(
            Config {
                direction,
                remote,
                local_paths,
                tunnels: args.tunnels,
                port: args.port,
                identity: args.identity,
                password,
                compress: args.compress,
                chunk_size,
                verify: args.verify,
                force: args.force,
                no_progress: args.no_progress,
                debug_log: args.debug_log,
                verbose: args.verbose,
            },
        )
    }
}

/// The views of remote locations.
pub open spec fn remote_views(v: Seq<RemoteSpec>) -> Seq<RemoteView> {
    v.map_values(|r: RemoteSpec| r@)
}

fn remote_sources(sources: &Vec<String>) -> (r: Vec<RemoteSpec>)
    ensures
        remote_views(r@) == remotes(text::texts(sources@)),
{
    let ghost all = text::texts(sources@);
    let mut r: Vec<RemoteSpec> = Vec::new();
    let mut i: usize = 0;
    proof {
        assert(remote_views(r@) =~= remotes(all.take(0)));
    }
    while i < sources.len()
        invariant
            i <= sources@.len(),
            all == text::texts(sources@),
            remote_views(r@) == remotes(all.take(i as int)),
        decreases sources@.len() - i,
    {
        proof {
            assert(all.take(i + 1).drop_last() =~= all.take(i as int));
            assert(all.take(i + 1).last() == sources@[i as int]@);
        }
        let ghost before = remote_views(r@);
        match RemoteSpec::parse(sources[i].as_str()) {
            Some(spec) => {
                r.push(spec);
                proof {
                    assert(remote_views(r@) =~= before.push(spec@));
                }
            },
            None => {},
        }
        i = i + 1;
    }
    proof {
        assert(all.take(all.len() as int) =~= all);
    }
    r
}

fn one_host(v: &Vec<RemoteSpec>) -> (r: bool)
    requires
        v@.len() > 0,
    ensures
        r == !(exists|i: int|
            0 <= i < v@.len() && (#[trigger] remote_views(v@)[i]).host != remote_views(
                v@,
            )[0].host),
{
    let ghost views = remote_views(v@);
    let mut i: usize = 0;
    while i < v.len()
        invariant
            0 < v@.len(),
            i <= v@.len(),
            views == remote_views(v@),
            forall|j: int| 0 <= j < i ==> (#[trigger] views[j]).host == views[0].host,
        decreases v@.len() - i,
    {
        if v[i].host != v[0].host {
            proof {
                assert(views[i as int].host != views[0].host);
            }
            return false;
        }
        i = i + 1;
    }
    true
}

fn paths_of(v: &Vec<RemoteSpec>) -> (r: Vec<String>)
    ensures
        text::texts(r@) == remote_views(v@).map_values(|r: RemoteView| r.path),
{
    let mut r: Vec<String> = Vec::new();
    let mut i: usize = 0;
    while i < v.len()
        invariant
            i <= v@.len(),
            r@.len() == i,
            forall|j: int| 0 <= j < i ==> (#[trigger] r@[j])@ == v@[j].path@,
        decreases v@.len() - i,
    {
        r.push(v[i].path.clone());
        i = i + 1;
    }
    proof {
        assert(text::texts(r@) =~= remote_views(v@).map_values(|r: RemoteView| r.path));
    }
    r
}

// ---------------------------------------------------------------------------
// Laws: sizes
// ---------------------------------------------------------------------------

proof fn lemma_only_digits_are_read(s: Seq<char>, value: nat)
    requires
        digits_value(s, value) is Ok,
    ensures
        forall|i: int| 0 <= i < s.len() ==> '0' <= #[trigger] s[i] <= '9',
        digits_value(s, value)->Ok_0 >= value,
    decreases s.len(),
{
    if s.len() > 0 {
        let d = digit_value(s[0]).unwrap();
        lemma_only_digits_are_read(s.drop_first(), value * 10 + d);
        assert forall|i: int| 0 <= i < s.len() implies '0' <= #[trigger] s[i] <= '9' by {
            if i > 0 {
                assert(s.drop_first()[i - 1] == s[i]);
            }
        }
    }
}

/// A size is a number with a unit or without one: whatever else is in it, it is refused.
pub proof fn lemma_sizes_are_numbers(s: Seq<char>)
    requires
        size_value(s) is Ok,
    ensures
        text::trimmed(s).len() > 0,
        forall|i: int|
            1 <= i < text::trimmed(s).len() - 1 ==> '0' <= #[trigger] text::trimmed(s)[i] <= '9',
{
    let u = text::trimmed(s);
    let n = size_parts(u).0;
    if n.len() > 1 && n[0] == '+' {
        let d = n.drop_first();
        lemma_only_digits_are_read(d, 0);
        assert forall|i: int| 1 <= i < u.len() - 1 implies '0' <= #[trigger] u[i] <= '9' by {
            assert(d[i - 1] == u[i]);
        }
    } else {
        lemma_only_digits_are_read(n, 0);
        assert forall|i: int| 1 <= i < u.len() - 1 implies '0' <= #[trigger] u[i] <= '9' by {
            assert(n[i] == u[i]);
        }
    }
}

/// Blanks around a size do not matter.
pub proof fn lemma_blanks_around_sizes(s: Seq<char>)
    requires
        text::trimmed(s).len() > 0,
    ensures
        size_value(s) == size_value(text::trimmed(s)),
{
    text::lemma_trimmed(s);
}

/// Units go up by 1024, may be written small, and there are no others.
pub proof fn lemma_units(c: char)
    ensures
        suffix_factor('k') == suffix_factor('K') && suffix_factor('m') == suffix_factor('M')
            && suffix_factor('g') == suffix_factor('G'),
        suffix_factor('M') == 1024 * suffix_factor('K') && suffix_factor('G') == 1024
            * suffix_factor('M') && suffix_factor('K') == 1024,
        suffix_factor(c) > 0 ==> c == 'k' || c == 'K' || c == 'm' || c == 'M' || c == 'g' || c
            == 'G',
{
}

// ---------------------------------------------------------------------------
// Laws: remote places, and the direction
// ---------------------------------------------------------------------------

/// A place is remote exactly if there is a colon in it, unless the first colon stands behind a
/// single letter, which is a drive. What stands behind the first colon is the path.
pub proof fn lemma_colon_makes_a_place_remote(s: &str, r: Option<RemoteSpec>)
    requires
        call_ensures(RemoteSpec::parse, (s,), r),
    ensures
        !s@.contains(':') ==> r is None,
        s@.len() >= 2 && s@[1] == ':' && s@[0] != ':' ==> (r is None <==> ('a' <= s@[0] <= 'z'
            || 'A' <= s@[0] <= 'Z')),
        forall|k: int|
            0 <= k < s@.len() && (#[trigger] s@[k]) == ':' && k != 1 && !s@.take(k).contains(':')
                ==> (r matches Some(spec) && spec.path@ == s@.skip(k + 1)),
        r matches Some(spec) ==> !spec.host@.contains(':') && (spec.user matches Some(u)
            ==> !u@.contains('@')),
{
    let t = s@;
    t.index_of_first_ensures(':');
    assert forall|k: int|
        0 <= k < t.len() && (#[trigger] t[k]) == ':' && k != 1 && !t.take(k).contains(':') implies (
    r matches Some(spec) && spec.path@ == t.skip(k + 1)) by {
        assert(t.contains(t[k]));
        let c = t.index_of_first(':').unwrap();
        if c < k {
            assert(t.take(k)[c] == ':');
        }
    }
    if t.len() >= 2 && t[1] == ':' && t[0] != ':' {
        assert(t.contains(t[1]));
    }
    if r is Some {
        let c = t.index_of_first(':').unwrap();
        let place = t.take(c);
        place.index_of_first_ensures('@');
        let host = remote_of(t).unwrap().host;
        assert forall|i: int| 0 <= i < host.len() implies host[i] != ':' by {
            if place.index_of_first('@') is Some {
                let at = place.index_of_first('@').unwrap();
                assert(host[i] == t[at + 1 + i]);
            } else {
                assert(host[i] == t[i]);
            }
        }
        match remote_of(t).unwrap().user {
            Some(u) => {
                let at = place.index_of_first('@').unwrap();
                assert forall|i: int| 0 <= i < u.len() implies u[i] != '@' by {
                    assert(u[i] == place[i]);
                }
            },
            None => {},
        }
    }
}

proof fn lemma_remotes(sources: Seq<Seq<char>>)
    ensures
        (forall|i: int| 0 <= i < sources.len() ==> remote_of(#[trigger] sources[i]) is None) <==> remotes(
            sources,
        ).len() == 0,
        (forall|i: int| 0 <= i < sources.len() ==> remote_of(#[trigger] sources[i]) is Some)
            ==> remotes(sources).len() == sources.len() && forall|i: int|
            0 <= i < sources.len() ==> remote_of(#[trigger] sources[i]) == Some(remotes(sources)[i]),
    decreases sources.len(),
{
    if sources.len() > 0 {
        let front = sources.drop_last();
        lemma_remotes(front);
        assert(sources[sources.len() - 1] == sources.last());
        if forall|i: int| 0 <= i < sources.len() ==> remote_of(#[trigger] sources[i]) is None {
            assert forall|i: int| 0 <= i < front.len() implies remote_of(
                #[trigger] front[i],
            ) is None by {
                assert(front[i] == sources[i]);
            }
        }
        if remotes(sources).len() == 0 {
            assert forall|i: int| 0 <= i < sources.len() implies remote_of(
                #[trigger] sources[i],
            ) is None by {
                if i < front.len() {
                    assert(front[i] == sources[i]);
                }
            }
        }
        if forall|i: int| 0 <= i < sources.len() ==> remote_of(#[trigger] sources[i]) is Some {
            assert forall|i: int| 0 <= i < front.len() implies remote_of(
                #[trigger] front[i],
            ) is Some by {
                assert(front[i] == sources[i]);
            }
            assert forall|i: int| 0 <= i < sources.len() implies remote_of(#[trigger] sources[i])
                == Some(remotes(sources)[i]) by {
                if i < front.len() {
                    assert(front[i] == sources[i]);
                }
            }
        }
    }
}

/// The side that is remote decides the direction. Local files go up to a remote destination, all of
/// them; remote files of one host come down to a local destination. Nothing else is a transfer, and
/// neither is one without connections.
pub proof fn lemma_remote_side_decides(
    args: Args,
    password: Option<String>,
    r: Result<Config, StrawsError>,
)
    requires
        call_ensures(Config::from_args, (args, password), r),
    ensures
        ({
            let from = text::texts(args.sources@);
            let to = remote_of(args.destination@);
            let none = forall|i: int| 0 <= i < from.len() ==> remote_of(#[trigger] from[i]) is None;
            let all = forall|i: int| 0 <= i < from.len() ==> remote_of(#[trigger] from[i]) is Some;
            let one_host = forall|i: int|
                0 <= i < from.len() ==> remote_of(#[trigger] from[i]).unwrap().host == remote_of(
                    from[0],
                ).unwrap().host;
            &&& r is Err ==> r->Err_0@ is Config
            &&& args.tunnels == 0 ==> r is Err
            &&& to is Some && none && args.tunnels > 0 ==> (r matches Ok(c) && c.direction
                == Direction::Upload && c.remote@ == to.unwrap() && text::texts(c.local_paths@)
                == from)
            &&& to is Some && !none ==> r is Err && r->Err_0@
                == ErrorView::Config("Cannot transfer between two remote hosts"@)
            &&& to is None && none ==> r is Err && r->Err_0@
                == ErrorView::Config("At least one path must be remote (user@host:path)"@)
            &&& to is None && all && from.len() > 0 && one_host && args.tunnels > 0 ==> (
            r matches Ok(c) && c.direction == Direction::Download && c.remote@.host == remote_of(
                from[0],
            ).unwrap().host && c.remote@.user == remote_of(from[0]).unwrap().user
                && c.local_paths@.len() == 1 && c.local_paths@[0]@ == args.destination@
                && text::split_text(c.remote.path@, '\0').len() >= 1)
            &&& to is None && all && from.len() > 0 && !one_host ==> r is Err
                && r->Err_0@ == ErrorView::Config(
                "All remote sources must be from the same host"@,
            )
            &&& to is None && all && from.len() > 0 && r is Ok && (forall|i: int|
                0 <= i < from.len() ==> !remote_of(#[trigger] from[i]).unwrap().path.contains('\0'))
                ==> text::split_text(r->Ok_0.remote.path@, '\0') == Seq::new(
                from.len(),
                |i: int| remote_of(from[i]).unwrap().path,
            )
        }),
{
    let from = text::texts(args.sources@);
    let dest = args.destination@;
    lemma_remotes(from);
    let views = remotes(from);
    let all = forall|i: int| 0 <= i < from.len() ==> remote_of(#[trigger] from[i]) is Some;
    if r is Ok {
        text::lemma_split_is_not_empty(r->Ok_0.remote.path@, '\0');
        assert(r->Ok_0.route().local_paths.len() == r->Ok_0.local_paths@.len());
    }
    if remote_of(dest) is None && all && from.len() > 0 {
        let one_host = forall|i: int|
            0 <= i < from.len() ==> remote_of(#[trigger] from[i]).unwrap().host == remote_of(
                from[0],
            ).unwrap().host;
        assert(remote_of(from[0]) == Some(views[0]));
        if one_host {
            assert forall|i: int| 0 <= i < views.len() implies (#[trigger] views[i]).host
                == views[0].host by {
                assert(remote_of(from[i]) == Some(views[i]));
            }
        } else {
            let i = choose|i: int|
                0 <= i < from.len() && remote_of(#[trigger] from[i]).unwrap().host != remote_of(
                    from[0],
                ).unwrap().host;
            assert(views[i].host != views[0].host);
        }
        if r is Ok {
            assert(r->Ok_0.local_paths@[0]@ == text::texts(r->Ok_0.local_paths@)[0]);
            let paths = views.map_values(|v: RemoteView| v.path);
            let want = Seq::new(from.len(), |i: int| remote_of(from[i]).unwrap().path);
            assert(paths =~= want);
            if forall|i: int|
                0 <= i < from.len() ==> !remote_of(#[trigger] from[i]).unwrap().path.contains(
                    '\0',
                ) {
                assert forall|i: int| 0 <= i < paths.len() implies !(
                #[trigger] paths[i]).contains('\0') by {
                    assert(remote_of(from[i]).unwrap().path == paths[i]);
                }
                reveal_strlit("\0");
                assert("\0"@ =~= seq!['\0']);
                text::lemma_split_undoes_join(paths, '\0');
            }
        }
    }
}

/// What the command line asks for is kept, and so is the password.
pub proof fn lemma_options_are_kept(
    args: Args,
    password: Option<String>,
    r: Result<Config, StrawsError>,
)
    requires
        call_ensures(Config::from_args, (args, password), r),
        r is Ok,
    ensures
        ({
            let c = r->Ok_0;
            &&& c.tunnels == args.tunnels && c.port == args.port && c.identity == args.identity
            &&& c.compress == args.compress && c.verify == args.verify && c.force == args.force
            &&& c.no_progress == args.no_progress && c.debug_log == args.debug_log && c.verbose
                == args.verbose
            &&& c.password == password
            &&& args.chunk_size > 0 ==> c.chunk_size == args.chunk_size
            &&& c.chunk_size > 0 && c.tunnels > 0
        }),
{
}

proof fn lemma_local_source_is_left_out(a: Seq<Seq<char>>, local: Seq<char>, b: Seq<Seq<char>>)
    requires
        remote_of(local) is None,
    ensures
        remotes(a.push(local) + b) == remotes(a + b),
    decreases b.len(),
{
    let x = a.push(local) + b;
    if b.len() == 0 {
        assert(x =~= a.push(local));
        assert(x.drop_last() =~= a);
        assert(a + b =~= a);
    } else {
        lemma_local_source_is_left_out(a, local, b.drop_last());
        assert(x.drop_last() =~= a.push(local) + b.drop_last());
        assert((a + b).drop_last() =~= a + b.drop_last());
        assert(x.last() == b.last() && (a + b).last() == b.last());
    }
}

/// A local source among those of a download changes nothing of where the files come from and where
/// they go.
pub proof fn lemma_local_sources_do_not_come_down(
    args: Args,
    more: Args,
    password: Option<String>,
    r: Result<Config, StrawsError>,
    s: Result<Config, StrawsError>,
    a: Seq<Seq<char>>,
    local: Seq<char>,
    b: Seq<Seq<char>>,
)
    requires
        remote_of(local) is None,
        remote_of(args.destination@) is None,
        more.destination@ == args.destination@,
        more.tunnels == args.tunnels,
        text::texts(args.sources@) == a + b,
        text::texts(more.sources@) == a.push(local) + b,
        call_ensures(Config::from_args, (args, password), r),
        call_ensures(Config::from_args, (more, password), s),
    ensures
        r is Ok <==> s is Ok,
        r is Ok ==> s->Ok_0.remote@ == r->Ok_0.remote@ && s->Ok_0.direction == r->Ok_0.direction
            && text::texts(s->Ok_0.local_paths@) == text::texts(r->Ok_0.local_paths@),
        r is Err ==> s->Err_0@ == r->Err_0@,
{
    lemma_local_source_is_left_out(a, local, b);
    let x = route_of(a + b, args.destination@);
    assert(route_of(a.push(local) + b, args.destination@) == x);
    if r is Ok && s is Ok {
        assert(x == Ok::<Route, Seq<char>>(r->Ok_0.route()));
        assert(x == Ok::<Route, Seq<char>>(s->Ok_0.route()));
    }
}

} // verus!
