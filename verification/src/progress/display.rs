//! What the display shows: frames as rows of drawing commands.

use vstd::prelude::*;
use vstd::string::*;

use crate::agent::pool::{AgentPool, AgentState};
use crate::progress::speed;
use crate::progress::tracker::{
    CompletedFile, CompletedView, FailedFile, FailedView, LogEvent, LogView, ProgressTracker,
    ProgressView,
};
use crate::text;

verus! {

/// How many milliseconds pass between two frames.
pub const RENDER_INTERVAL_MS: u64 = 250;

/// How many characters the progress bar is wide.
pub const PROGRESS_BAR_WIDTH: usize = 40;

/// How many characters an agent takes.
pub const CELL_WIDTH: usize = 32;

/// How many events and files are shown at most.
pub const SHOWN: usize = 5;

/// How many failed files are listed at most.
pub const LISTED: usize = 20;

// ---------------------------------------------------------------------------
// Fitting text
// ---------------------------------------------------------------------------

/// `s` cut to `max` characters, with `...` behind it where there is room for that.
pub open spec fn cut_end(s: Seq<char>, max: nat) -> Seq<char> {
    if s.len() <= max {
        s
    } else if max <= 3 {
        s.take(max as int)
    } else {
        s.take(max - 3) + "..."@
    }
}

/// `s` cut to `max` characters, with `...` in its middle where there is room for that.
pub open spec fn cut_middle(s: Seq<char>, max: nat) -> Seq<char> {
    if s.len() <= max {
        s
    } else if max <= 3 {
        s.take(max as int)
    } else {
        s.take((max - 3 + 1) / 2) + "..."@ + s.skip(s.len() - (max - 3) / 2)
    }
}

/// `s` cut to `max_len` characters, with `...` behind it.
pub fn truncate(s: &str, max_len: usize) -> (r: String)
    ensures
        r@ == cut_end(s@, max_len as nat),
{
    let v = text::chars_of(s);
    let n: usize = v.len();
    if n <= max_len {
        return s.to_owned();
    }
    let kept: usize = if max_len <= 3 {
        max_len
    } else {
        max_len - 3
    };
    let front = text::text_between(&v, 0, kept);
    proof {
        assert(front@ =~= s@.take(kept as int));
    }
    if max_len <= 3 {
        front
    } else {
        text::cat(front.as_str(), "...")
    }
}

/// `s` cut to `max_len` characters, with `...` in its middle.
pub fn truncate_middle(s: &str, max_len: usize) -> (r: String)
    ensures
        r@ == cut_middle(s@, max_len as nat),
{
    let v = text::chars_of(s);
    let n: usize = v.len();
    if n <= max_len {
        return s.to_owned();
    }
    if max_len <= 3 {
        let front = text::text_between(&v, 0, max_len);
        proof {
            assert(front@ =~= s@.take(max_len as int));
        }
        return front;
    }
    let keep: usize = max_len - 3;
    let front_len: usize = (keep + 1) / 2;
    let back_len: usize = keep / 2;
    let front = text::text_between(&v, 0, front_len);
    let back = text::text_between(&v, n - back_len, n);
    proof {
        assert(front@ =~= s@.take((max_len - 3 + 1) / 2));
        assert(back@ =~= s@.skip(s@.len() - (max_len - 3) / 2));
    }
    text::cat3(front.as_str(), "...", back.as_str())
}

/// Where a terminal is in its input.
#[derive(Debug, Clone, Copy, PartialEq, Eq, Structural)]
pub enum Code {
    /// In text that is seen.
    Outside,
    /// Behind the character that begins a code.
    Begun,
    /// In a control sequence, such as one that sets a colour.
    Control,
    /// In a string for the terminal, such as a title.
    Message,
}

/// Where a terminal is after a character. The character that begins a code does so everywhere. A
/// control sequence ends with a character from `@` to `~`, a string with a bell or a new code, and
/// any other code with a character from `0` to `~`. What cannot stand in a code breaks it off.
pub open spec fn code_after(code: Code, c: char) -> Code {
    if c == '\u{1b}' {
        Code::Begun
    } else {
        match code {
            Code::Outside => Code::Outside,
            Code::Begun => if c == '[' {
                Code::Control
            } else if c == ']' || c == 'P' || c == 'X' || c == '^' || c == '_' {
                Code::Message
            } else if ' ' <= c <= '/' {
                Code::Begun
            } else {
                Code::Outside
            },
            Code::Control => if ' ' <= c <= '?' {
                Code::Control
            } else {
                Code::Outside
            },
            Code::Message => if c == '\u{7}' {
                Code::Outside
            } else {
                Code::Message
            },
        }
    }
}

/// Whether a character that comes at such a place is seen: outside of codes, or where it breaks one
/// off.
pub open spec fn is_seen(code: Code, c: char) -> bool {
    c != '\u{1b}' && match code {
        Code::Outside => true,
        Code::Begun | Code::Control => !(' ' <= c <= '~'),
        Code::Message => false,
    }
}

/// Where a terminal is after text.
pub open spec fn code_at_end(s: Seq<char>) -> Code
    decreases s.len(),
{
    if s.len() == 0 {
        Code::Outside
    } else {
        code_after(code_at_end(s.drop_last()), s.last())
    }
}

/// What is seen of text: the ANSI codes in it are not.
pub open spec fn seen(s: Seq<char>) -> Seq<char>
    decreases s.len(),
{
    if s.len() == 0 {
        s
    } else if is_seen(code_at_end(s.drop_last()), s.last()) {
        seen(s.drop_last()).push(s.last())
    } else {
        seen(s.drop_last())
    }
}

fn next_code(code: Code, c: char) -> (r: Code)
    ensures
        r == code_after(code, c),
{
    if c == '\u{1b}' {
        return Code::Begun;
    }
    match code {
        Code::Outside => Code::Outside,
        Code::Begun => if c == '[' {
            Code::Control
        } else if c == ']' || c == 'P' || c == 'X' || c == '^' || c == '_' {
            Code::Message
        } else if ' ' <= c && c <= '/' {
            Code::Begun
        } else {
            Code::Outside
        },
        Code::Control => if ' ' <= c && c <= '?' {
            Code::Control
        } else {
            Code::Outside
        },
        Code::Message => if c == '\u{7}' {
            Code::Outside
        } else {
            Code::Message
        },
    }
}

fn counts(code: Code, c: char) -> (r: bool)
    ensures
        r == is_seen(code, c),
{
    c != '\u{1b}' && match code {
        Code::Outside => true,
        Code::Begun | Code::Control => !(' ' <= c && c <= '~'),
        Code::Message => false,
    }
}

/// How many characters of `s` are seen: ANSI codes are not.
pub fn visible_len(s: &str) -> (r: usize)
    ensures
        r == seen(s@).len(),
{
    let v = text::chars_of(s);
    let mut code: Code = Code::Outside;
    let mut n: usize = 0;
    let mut i: usize = 0;
    while i < v.len()
        invariant
            n <= i <= v@.len(),
            code == code_at_end(v@.take(i as int)),
            n == seen(v@.take(i as int)).len(),
        decreases v@.len() - i,
    {
        proof {
            assert(v@.take(i + 1).drop_last() =~= v@.take(i as int));
            assert(v@.take(i + 1).last() == v@[i as int]);
        }
        if counts(code, v[i]) {
            n = n + 1;
        }
        code = next_code(code, v[i]);
        i = i + 1;
    }
    proof {
        assert(v@.take(v@.len() as int) =~= s@);
    }
    n
}

/// No more is seen than is there, and text without codes is seen as it is.
pub proof fn lemma_text_without_codes_is_seen(s: Seq<char>)
    ensures
        seen(s).len() <= s.len(),
        !s.contains('\u{1b}') ==> seen(s) == s && code_at_end(s) == Code::Outside,
    decreases s.len(),
{
    if s.len() > 0 {
        let t = s.drop_last();
        lemma_text_without_codes_is_seen(t);
        assert(t.push(s.last()) =~= s);
        if !s.contains('\u{1b}') {
            assert(s.contains(s[s.len() - 1]));
            assert forall|i: int| 0 <= i < t.len() implies t[i] != '\u{1b}' by {
                assert(s.contains(s[i]));
            }
        }
    }
}

/// The code that sets a colour or a style, with its parameters.
pub open spec fn style_code(parameters: Seq<char>) -> Seq<char> {
    seq!['\u{1b}', '['] + parameters + seq!['m']
}

proof fn lemma_style_code(parameters: Seq<char>)
    requires
        forall|i: int| 0 <= i < parameters.len() ==> ' ' <= #[trigger] parameters[i] <= '?',
    ensures
        seen(style_code(parameters)).len() == 0,
        code_at_end(style_code(parameters)) == Code::Outside,
{
    let head = seq!['\u{1b}', '['];
    lemma_in_control(parameters);
    let s = style_code(parameters);
    assert(s.drop_last() =~= head + parameters);
}

proof fn lemma_in_control(parameters: Seq<char>)
    requires
        forall|i: int| 0 <= i < parameters.len() ==> ' ' <= #[trigger] parameters[i] <= '?',
    ensures
        seen(seq!['\u{1b}', '['] + parameters).len() == 0,
        code_at_end(seq!['\u{1b}', '['] + parameters) == Code::Control,
    decreases parameters.len(),
{
    let head = seq!['\u{1b}', '['];
    let s = head + parameters;
    if parameters.len() == 0 {
        assert(s =~= head);
        assert(head.drop_last() =~= seq!['\u{1b}']);
        assert(head.drop_last().drop_last() =~= Seq::<char>::empty());
        reveal_with_fuel(seen, 3);
        reveal_with_fuel(code_at_end, 3);
    } else {
        let front = parameters.drop_last();
        assert forall|i: int| 0 <= i < front.len() implies ' ' <= #[trigger] front[i] <= '?' by {
            assert(front[i] == parameters[i]);
        }
        lemma_in_control(front);
        assert(s.drop_last() =~= head + front);
        assert(s.last() == parameters[parameters.len() - 1]);
    }
}

proof fn lemma_seen_behind(a: Seq<char>, b: Seq<char>)
    requires
        code_at_end(a) == Code::Outside,
    ensures
        seen(a + b) == seen(a) + seen(b),
        code_at_end(a + b) == code_at_end(b),
    decreases b.len(),
{
    if b.len() == 0 {
        assert(a + b =~= a);
        assert(seen(a) + seen(b) =~= seen(a));
    } else {
        lemma_seen_behind(a, b.drop_last());
        assert((a + b).drop_last() =~= a + b.drop_last());
        assert((a + b).last() == b.last());
        assert(seen(a + b) =~= seen(a) + seen(b));
    }
}

/// Colours and styles around text change nothing of what is seen.
pub proof fn lemma_colors_are_not_seen(before: Seq<char>, s: Seq<char>, after: Seq<char>)
    requires
        forall|i: int| 0 <= i < before.len() ==> ' ' <= #[trigger] before[i] <= '?',
        forall|i: int| 0 <= i < after.len() ==> ' ' <= #[trigger] after[i] <= '?',
        code_at_end(s) == Code::Outside,
    ensures
        seen(style_code(before) + s + style_code(after)) == seen(s),
{
    lemma_style_code(before);
    lemma_style_code(after);
    lemma_seen_behind(style_code(before), s);
    lemma_seen_behind(style_code(before) + s, style_code(after));
    assert(seen(style_code(before) + s + style_code(after)) =~= seen(s));
}

/// Text that was cut fits, and text that fits is left alone.
pub proof fn lemma_cut_text_fits(s: Seq<char>, max: nat)
    ensures
        cut_end(s, max).len() == if s.len() <= max {
            s.len()
        } else {
            max
        },
        cut_middle(s, max).len() == if s.len() <= max {
            s.len()
        } else {
            max
        },
        s.len() <= max ==> cut_end(s, max) == s && cut_middle(s, max) == s,
{
    reveal_strlit("...");
}

// ---------------------------------------------------------------------------
// Drawing commands
// ---------------------------------------------------------------------------

/// A colour of the display.
#[derive(Debug, Clone, Copy, PartialEq, Eq, Structural)]
pub enum Tint {
    DarkGrey,
    Yellow,
    Cyan,
    Green,
    Red,
    /// The filled part of the progress bar: red 180, green 150, blue 255.
    Bar,
    /// An agent at work: red 120, green 100, blue 180.
    Busy,
}

/// A drawing command.
#[derive(Debug)]
pub enum Draw {
    /// Go to the upper left corner.
    Home,
    /// Clear the screen.
    Clear,
    /// Show the cursor.
    ShowCursor,
    /// Write text.
    Print(String),
    /// Write in this colour from now on.
    Color(Tint),
    /// Write in the usual colour from now on.
    ResetColor,
    /// Write in bold from now on.
    Bold,
    /// Write in the usual style from now on.
    ResetStyle,
}

/// A drawing command, with its text as a sequence of characters.
pub enum DrawView {
    Home,
    Clear,
    ShowCursor,
    Print(Seq<char>),
    Color(Tint),
    ResetColor,
    Bold,
    ResetStyle,
}

impl View for Draw {
    type V = DrawView;

    open spec fn view(&self) -> DrawView {
        match *self {
            Draw::Home => DrawView::Home,
            Draw::Clear => DrawView::Clear,
            Draw::ShowCursor => DrawView::ShowCursor,
            Draw::Print(s) => DrawView::Print(s@),
            Draw::Color(t) => DrawView::Color(t),
            Draw::ResetColor => DrawView::ResetColor,
            Draw::Bold => DrawView::Bold,
            Draw::ResetStyle => DrawView::ResetStyle,
        }
    }
}

/// The views of drawing commands.
pub open spec fn drawn(v: Seq<Draw>) -> Seq<DrawView> {
    v.map_values(|d: Draw| d@)
}

fn put(out: &mut Vec<Draw>, d: Draw)
    ensures
        drawn(final(out)@) == drawn(old(out)@).push(d@),
{
    let ghost before = drawn(out@);
    out.push(d);
    proof {
        assert(drawn(out@) =~= before.push(d@));
    }
}

fn print(out: &mut Vec<Draw>, s: &str)
    ensures
        drawn(final(out)@) == drawn(old(out)@).push(DrawView::Print(s@)),
{
    put(out, Draw::Print(s.to_owned()));
}

/// Text in a colour of its own.
pub open spec fn in_color(tint: Tint, s: Seq<char>) -> Seq<DrawView> {
    seq![DrawView::Color(tint), DrawView::Print(s), DrawView::ResetColor]
}

fn print_colored(out: &mut Vec<Draw>, tint: Tint, s: &str)
    ensures
        drawn(final(out)@) == drawn(old(out)@) + in_color(tint, s@),
{
    let ghost before = drawn(out@);
    put(out, Draw::Color(tint));
    print(out, s);
    put(out, Draw::ResetColor);
    proof {
        assert(drawn(out@) =~= before + in_color(tint, s@));
    }
}

/// Text in bold.
pub open spec fn in_bold(s: Seq<char>) -> Seq<DrawView> {
    seq![DrawView::Bold, DrawView::Print(s), DrawView::ResetStyle]
}

fn print_bold(out: &mut Vec<Draw>, s: &str)
    ensures
        drawn(final(out)@) == drawn(old(out)@) + in_bold(s@),
{
    let ghost before = drawn(out@);
    put(out, Draw::Bold);
    print(out, s);
    put(out, Draw::ResetStyle);
    proof {
        assert(drawn(out@) =~= before + in_bold(s@));
    }
}

/// A label, text in a colour of its own, and the end of the line.
pub open spec fn labelled(label: Seq<char>, tint: Tint, s: Seq<char>) -> Seq<DrawView> {
    seq![DrawView::Print(label)] + in_color(tint, s) + seq![DrawView::Print("\n"@)]
}

fn print_labelled(out: &mut Vec<Draw>, label: &str, tint: Tint, s: &str)
    ensures
        drawn(final(out)@) == drawn(old(out)@) + labelled(label@, tint, s@),
{
    let ghost before = drawn(out@);
    print(out, label);
    print_colored(out, tint, s);
    print(out, "\n");
    proof {
        assert(drawn(out@) =~= before + labelled(label@, tint, s@));
    }
}

// ---------------------------------------------------------------------------
// The parts of a frame
// ---------------------------------------------------------------------------

/// What is measured outside and shown in a frame.
#[derive(Debug)]
pub struct Gauges {
    /// How many characters of the bar are filled.
    pub filled: usize,
    /// The percentage, as it is shown.
    pub percent: String,
    /// The speed, as it is shown.
    pub speed: String,
    /// The time that the phase at hand takes already, as it is shown.
    pub elapsed: String,
    /// How many seconds are left, if that is known.
    pub eta: Option<u64>,
}

/// `n` less `m`, or nothing.
pub open spec fn less(n: nat, m: nat) -> nat {
    if n < m {
        0
    } else {
        (n - m) as nat
    }
}

fn less_of(n: usize, m: usize) -> (r: usize)
    ensures
        r == less(n as nat, m as nat),
{
    if n < m {
        0
    } else {
        n - m
    }
}

/// Where the files come from and where they go, where that is known.
pub open spec fn header_part(source: Seq<char>, dest: Seq<char>, width: nat) -> Seq<DrawView> {
    if source.len() == 0 {
        Seq::empty()
    } else {
        seq![
            DrawView::Print("\n"@),
            DrawView::Print("  "@),
            DrawView::Color(Tint::DarkGrey),
            DrawView::Print("· "@),
            DrawView::Print(cut_middle(source, less(width, 6))),
            DrawView::Print("\n"@),
            DrawView::Print("  → "@),
            DrawView::Print(cut_middle(dest, less(width, 6))),
            DrawView::ResetColor,
            DrawView::Print("\n"@),
        ]
    }
}

fn draw_header(out: &mut Vec<Draw>, source: &str, dest: &str, width: usize)
    ensures
        drawn(final(out)@) == drawn(old(out)@) + header_part(source@, dest@, width as nat),
{
    let ghost before = drawn(out@);
    if source.unicode_len() > 0 {
        let max: usize = less_of(width, 6);
        print(out, "\n");
        print(out, "  ");
        put(out, Draw::Color(Tint::DarkGrey));
        print(out, "· ");
        print(out, truncate_middle(source, max).as_str());
        print(out, "\n");
        print(out, "  → ");
        print(out, truncate_middle(dest, max).as_str());
        put(out, Draw::ResetColor);
        print(out, "\n");
    }
    proof {
        assert(drawn(out@) =~= before + header_part(source@, dest@, width as nat));
    }
}

/// The progress bar.
pub open spec fn bar_part(filled: nat, percent: Seq<char>) -> Seq<DrawView> {
    seq![
        DrawView::Print("\n"@),
        DrawView::Print("  "@),
        DrawView::Bold,
        DrawView::Color(Tint::Bar),
        DrawView::Print(text::repeated("█"@, filled)),
        DrawView::ResetStyle,
        DrawView::Color(Tint::DarkGrey),
        DrawView::Print(text::repeated("░"@, less(PROGRESS_BAR_WIDTH as nat, filled))),
        DrawView::ResetColor,
        DrawView::Print(" "@ + percent + "%\n"@),
    ]
}

fn draw_bar(out: &mut Vec<Draw>, filled: usize, percent: &str)
    ensures
        drawn(final(out)@) == drawn(old(out)@) + bar_part(filled as nat, percent@),
{
    let ghost before = drawn(out@);
    print(out, "\n");
    print(out, "  ");
    put(out, Draw::Bold);
    put(out, Draw::Color(Tint::Bar));
    print(out, text::repeat("█", filled).as_str());
    put(out, Draw::ResetStyle);
    put(out, Draw::Color(Tint::DarkGrey));
    print(out, text::repeat("░", less_of(PROGRESS_BAR_WIDTH, filled)).as_str());
    put(out, Draw::ResetColor);
    print(out, text::cat3(" ", percent, "%\n").as_str());
    proof {
        assert(drawn(out@) =~= before + bar_part(filled as nat, percent@));
    }
}

/// What is shown of the time that is left.
pub open spec fn eta_text(eta: Option<u64>) -> Seq<char> {
    match eta {
        Some(s) => speed::duration_text(s),
        None => "--:--"@,
    }
}

/// Bytes, speed and times.
pub open spec fn stats_part(
    transferred: u64,
    total: u64,
    speed: Seq<char>,
    elapsed: Seq<char>,
    eta: Option<u64>,
) -> Seq<DrawView> {
    seq![DrawView::Print("\n"@), DrawView::Print("  Progress: "@)] + in_color(
        Tint::Yellow,
        speed::size_text(transferred),
    ) + labelled(" / "@, Tint::Yellow, speed::size_text(total)) + labelled(
        "  Speed   : "@,
        Tint::Cyan,
        speed,
    ) + seq![DrawView::Print("  Elapsed : "@)] + in_bold(elapsed) + seq![
        DrawView::Print("\n"@),
        DrawView::Print("  ETA     : "@),
    ] + in_bold(eta_text(eta)) + seq![DrawView::Print("\n"@)]
}

fn draw_stats(
    out: &mut Vec<Draw>,
    transferred: u64,
    total: u64,
    speed_text: &str,
    elapsed: &str,
    eta: Option<u64>,
)
    ensures
        drawn(final(out)@) == drawn(old(out)@) + stats_part(
            transferred,
            total,
            speed_text@,
            elapsed@,
            eta,
        ),
{
    let ghost before = drawn(out@);
    print(out, "\n");
    print(out, "  Progress: ");
    print_colored(out, Tint::Yellow, speed::format_bytes(transferred).as_str());
    print_labelled(out, " / ", Tint::Yellow, speed::format_bytes(total).as_str());
    print_labelled(out, "  Speed   : ", Tint::Cyan, speed_text);
    print(out, "  Elapsed : ");
    print_bold(out, elapsed);
    print(out, "\n");
    print(out, "  ETA     : ");
    match eta {
        Some(s) => {
            print_bold(out, speed::format_duration(s).as_str());
        },
        None => {
            print_bold(out, "--:--");
        },
    }
    print(out, "\n");
    proof {
        assert(drawn(out@) =~= before + stats_part(
            transferred,
            total,
            speed_text@,
            elapsed@,
            eta,
        ));
    }
}

/// How many files went over and failed.
pub open spec fn files_part(completed: u64, total: u64, failed: u64) -> Seq<DrawView> {
    seq![
        DrawView::Print(
            "  Files   : "@ + text::decimal_text(completed as nat) + " / "@ + text::decimal_text(
                total as nat,
            ),
        ),
    ] + (if failed > 0 {
        seq![DrawView::Print(" ("@)] + in_color(
            Tint::Red,
            text::decimal_text(failed as nat) + " failed"@,
        ) + seq![DrawView::Print(")"@)]
    } else {
        Seq::empty()
    }) + seq![DrawView::Print("\n"@)]
}

fn draw_files(out: &mut Vec<Draw>, completed: u64, total: u64, failed: u64)
    ensures
        drawn(final(out)@) == drawn(old(out)@) + files_part(completed, total, failed),
{
    let ghost before = drawn(out@);
    print(
        out,
        text::cat4(
            "  Files   : ",
            text::decimal(completed).as_str(),
            " / ",
            text::decimal(total).as_str(),
        ).as_str(),
    );
    if failed > 0 {
        print(out, " (");
        print_colored(
            out,
            Tint::Red,
            text::cat(text::decimal(failed).as_str(), " failed").as_str(),
        );
        print(out, ")");
    }
    print(out, "\n");
    proof {
        assert(drawn(out@) =~= before + files_part(completed, total, failed));
    }
}

// ---------------------------------------------------------------------------
// The agents
// ---------------------------------------------------------------------------

/// The sign of an agent, and its colour.
pub open spec fn agent_sign(state: AgentState) -> (Seq<char>, Tint) {
    match state {
        AgentState::Starting => ("○"@, Tint::Yellow),
        AgentState::Ready => ("○"@, Tint::DarkGrey),
        AgentState::Busy => ("●"@, Tint::Busy),
        AgentState::Unhealthy => ("✕"@, Tint::Red),
    }
}

/// The text of a cell: the sign, the number of the agent, and what it is doing.
pub open spec fn cell_text(i: nat, state: AgentState, job: Option<Seq<char>>) -> Seq<char> {
    agent_sign(state).0 + text::padded(text::decimal_text(i), 2, '0') + ":"@ + cut_end(
        match job {
            Some(j) => j,
            None => "-"@,
        },
        less(CELL_WIDTH as nat, 5),
    )
}

/// How many cells stand in a row.
pub open spec fn columns(width: nat) -> nat {
    if less(width, 4) < CELL_WIDTH {
        1
    } else {
        less(width, 4) / CELL_WIDTH as nat
    }
}

/// The cell of one agent: a new row begins with an indent.
pub open spec fn cell_part(
    i: nat,
    state: AgentState,
    job: Option<Seq<char>>,
    cols: nat,
) -> Seq<DrawView> {
    let cell = cell_text(i, state, job);
    (if i % cols == 0 {
        (if i > 0 {
            seq![DrawView::Print("\n"@)]
        } else {
            Seq::empty()
        }) + seq![DrawView::Print("    "@)]
    } else {
        Seq::empty()
    }) + in_color(agent_sign(state).1, cell) + seq![
        DrawView::Print(text::repeated(" "@, less(CELL_WIDTH as nat, seen(cell).len()))),
    ]
}

/// What agent `i` is doing, as far as that is known.
pub open spec fn job_of(jobs: Seq<Option<Seq<char>>>, i: int) -> Option<Seq<char>> {
    if i < jobs.len() {
        jobs[i]
    } else {
        None
    }
}

/// The cells of the first `n` agents.
pub open spec fn cells_part(
    states: Seq<AgentState>,
    jobs: Seq<Option<Seq<char>>>,
    cols: nat,
    n: nat,
) -> Seq<DrawView>
    decreases n,
{
    if n == 0 {
        Seq::empty()
    } else {
        let i = (n - 1) as nat;
        cells_part(states, jobs, cols, i) + cell_part(
            i,
            states[i as int],
            job_of(jobs, i as int),
            cols,
        )
    }
}

/// The agents, in rows.
pub open spec fn agents_part(
    states: Seq<AgentState>,
    jobs: Seq<Option<Seq<char>>>,
    width: nat,
) -> Seq<DrawView> {
    cells_part(states, jobs, columns(width), states.len()) + seq![DrawView::Print("\n"@)]
}

/// All cells are seen equally wide, as long as the numbers of the agents have two digits.
pub proof fn lemma_cells_are_equally_wide(i: nat, state: AgentState, job: Option<Seq<char>>)
    requires
        i < 100,
    ensures
        cell_text(i, state, job).len() <= CELL_WIDTH,
        seen(cell_text(i, state, job)).len() + less(
            CELL_WIDTH as nat,
            seen(cell_text(i, state, job)).len(),
        ) == CELL_WIDTH,
{
    reveal_strlit("○");
    reveal_strlit("●");
    reveal_strlit("✕");
    reveal_strlit(":");
    reveal_strlit("-");
    reveal_with_fuel(text::radix_text, 3);
    assert(text::decimal_text(i).len() <= 2);
    let name = match job {
        Some(j) => j,
        None => "-"@,
    };
    lemma_cut_text_fits(name, less(CELL_WIDTH as nat, 5));
    lemma_text_without_codes_is_seen(cell_text(i, state, job));
}

fn draw_cell(out: &mut Vec<Draw>, i: usize, state: AgentState, job: &Option<String>, cols: usize)
    requires
        cols > 0,
    ensures
        drawn(final(out)@) == drawn(old(out)@) + cell_part(
            i as nat,
            state,
            job.deep_view(),
            cols as nat,
        ),
{
    let ghost before = drawn(out@);
    if i % cols == 0 {
        if i > 0 {
            print(out, "\n");
        }
        print(out, "    ");
    }
    let ghost opened = drawn(out@);
    let sign: &str = match state {
        AgentState::Starting | AgentState::Ready => "○",
        AgentState::Busy => "●",
        AgentState::Unhealthy => "✕",
    };
    let tint: Tint = match state {
        AgentState::Starting => Tint::Yellow,
        AgentState::Ready => Tint::DarkGrey,
        AgentState::Busy => Tint::Busy,
        AgentState::Unhealthy => Tint::Red,
    };
    let max: usize = less_of(CELL_WIDTH, 5);
    let name: String = match job {
        Some(j) => truncate(j.as_str(), max),
        None => truncate("-", max),
    };
    let number = text::pad(text::decimal(i as u64).as_str(), 2, '0');
    let cell = text::cat4(sign, number.as_str(), ":", name.as_str());
    print_colored(out, tint, cell.as_str());
    let padding: usize = less_of(CELL_WIDTH, visible_len(cell.as_str()));
    print(out, text::repeat(" ", padding).as_str());
    proof {
        assert(cell@ == cell_text(i as nat, state, job.deep_view()));
        assert(drawn(out@) =~= before + cell_part(
            i as nat,
            state,
            job.deep_view(),
            cols as nat,
        ));
    }
}

fn draw_agents(out: &mut Vec<Draw>, pool: &AgentPool, jobs: &Vec<Option<String>>, width: usize)
    ensures
        drawn(final(out)@) == drawn(old(out)@) + agents_part(
            pool.states(),
            jobs@.map_values(|j: Option<String>| j.deep_view()),
            width as nat,
        ),
{
    let ghost before = drawn(out@);
    let ghost views = jobs@.map_values(|j: Option<String>| j.deep_view());
    let available: usize = less_of(width, 4);
    let cols: usize = if available < CELL_WIDTH {
        1
    } else {
        available / CELL_WIDTH
    };
    let nothing: Option<String> = None;
    let mut i: usize = 0;
    proof {
        assert(drawn(out@) =~= before + Seq::<DrawView>::empty());
    }
    while i < pool.agents.len()
        invariant
            i <= pool.agents@.len(),
            cols > 0,
            cols == columns(width as nat),
            nothing is None,
            views == jobs@.map_values(|j: Option<String>| j.deep_view()),
            drawn(out@) == before + cells_part(pool.states(), views, cols as nat, i as nat),
        decreases pool.agents@.len() - i,
    {
        let ghost so_far = drawn(out@);
        let state = pool.agents[i].state();
        proof {
            assert(pool.states()[i as int] == state);
        }
        if i < jobs.len() {
            proof {
                assert(views[i as int] == jobs@[i as int].deep_view());
            }
            draw_cell(out, i, state, &jobs[i], cols);
        } else {
            draw_cell(out, i, state, &nothing, cols);
        }
        proof {
            assert(drawn(out@) =~= before + cells_part(
                pool.states(),
                views,
                cols as nat,
                (i + 1) as nat,
            ));
        }
        i = i + 1;
    }
    print(out, "\n");
    proof {
        assert(drawn(out@) =~= before + agents_part(pool.states(), views, width as nat));
    }
}

// ---------------------------------------------------------------------------
// What happened last
// ---------------------------------------------------------------------------

/// How many of so many things are shown.
pub open spec fn shown(n: nat) -> nat {
    if n < SHOWN {
        n
    } else {
        SHOWN as nat
    }
}

/// The line of an event.
pub open spec fn event_part(e: LogView, width: nat) -> Seq<DrawView> {
    labelled(
        "    "@,
        if e.is_error {
            Tint::Red
        } else {
            Tint::Yellow
        },
        cut_end(e.message, less(width, 6)),
    )
}

/// The lines of the last `n` events, the newest first.
pub open spec fn events_part(events: Seq<LogView>, width: nat, n: nat) -> Seq<DrawView>
    decreases n,
{
    if n == 0 {
        Seq::empty()
    } else {
        events_part(events, width, (n - 1) as nat) + event_part(events[events.len() - n], width)
    }
}

/// The events, where there are any.
pub open spec fn log_part(events: Seq<LogView>, width: nat) -> Seq<DrawView> {
    if events.len() == 0 {
        Seq::empty()
    } else {
        seq![DrawView::Print("\n"@), DrawView::Print("  Log:\n"@)] + events_part(
            events,
            width,
            shown(events.len()),
        )
    }
}

fn draw_log(out: &mut Vec<Draw>, events: &Vec<LogEvent>, width: usize)
    ensures
        drawn(final(out)@) == drawn(old(out)@) + log_part(
            events@.map_values(|e: LogEvent| e@),
            width as nat,
        ),
{
    let ghost before = drawn(out@);
    let ghost views = events@.map_values(|e: LogEvent| e@);
    let n: usize = events.len();
    if n == 0 {
        proof {
            assert(drawn(out@) =~= before + log_part(views, width as nat));
        }
        return;
    }
    print(out, "\n");
    print(out, "  Log:\n");
    let ghost opened = drawn(out@);
    let count: usize = if n < SHOWN {
        n
    } else {
        SHOWN
    };
    let mut k: usize = 0;
    proof {
        assert(drawn(out@) =~= opened + events_part(views, width as nat, 0));
    }
    while k < count
        invariant
            k <= count <= n,
            n == events@.len(),
            views == events@.map_values(|e: LogEvent| e@),
            drawn(out@) == opened + events_part(views, width as nat, k as nat),
        decreases count - k,
    {
        let event = &events[n - 1 - k];
        proof {
            assert(views[n - (k + 1)] == event@);
        }
        let tint: Tint = if event.is_error {
            Tint::Red
        } else {
            Tint::Yellow
        };
        print_labelled(
            out,
            "    ",
            tint,
            truncate(event.message.as_str(), less_of(width, 6)).as_str(),
        );
        proof {
            assert(drawn(out@) =~= opened + events_part(views, width as nat, (k + 1) as nat));
        }
        k = k + 1;
    }
    proof {
        assert(drawn(out@) =~= before + log_part(views, width as nat));
    }
}

/// What is shown behind the name of a file: its digests, mode and time, or a mark that its digests
/// were compared.
pub open spec fn extra_info(f: CompletedView, verbose: bool) -> Seq<char> {
    if verbose {
        (match (f.local_md5, f.remote_md5) {
            (Some(a), Some(b)) => " ("@ + a + " = "@ + b + ")"@,
            _ => Seq::empty(),
        }) + " mode="@ + text::padded(
            text::octal_text((f.mode & 0o7777u32) as nat),
            4,
            '0',
        ) + " mtime="@ + text::decimal_text(f.mtime as nat)
    } else if f.local_md5 is Some {
        " ✓"@
    } else {
        Seq::empty()
    }
}

fn extra_info_of(f: &CompletedFile, verbose: bool) -> (r: String)
    ensures
        r@ == extra_info(f@, verbose),
{
    if verbose {
        let digests: String = match (&f.local_md5, &f.remote_md5) {
            (Some(a), Some(b)) => text::cat5(" (", a.as_str(), " = ", b.as_str(), ")"),
            _ => String::new(),
        };
        let mode = text::pad(text::octal(f.mode & 0o7777u32).as_str(), 4, '0');
        text::cat5(
            digests.as_str(),
            " mode=",
            mode.as_str(),
            " mtime=",
            text::decimal(f.mtime).as_str(),
        )
    } else if f.local_md5.is_some() {
        " ✓".to_owned()
    } else {
        String::new()
    }
}

/// The line of a file that went over.
pub open spec fn file_part(f: CompletedView, verbose: bool, width: nat) -> Seq<DrawView> {
    seq![DrawView::Print("    "@)] + in_color(Tint::Green, "✓ "@) + seq![
        DrawView::Print(cut_end(f.name + extra_info(f, verbose), less(width, 6))),
        DrawView::Print("\n"@),
    ]
}

/// The lines of the last `n` files, the newest first.
pub open spec fn recent_lines(
    files: Seq<CompletedView>,
    verbose: bool,
    width: nat,
    n: nat,
) -> Seq<DrawView>
    decreases n,
{
    if n == 0 {
        Seq::empty()
    } else {
        recent_lines(files, verbose, width, (n - 1) as nat) + file_part(
            files[files.len() - n],
            verbose,
            width,
        )
    }
}

/// The files that went over last, where there are any.
pub open spec fn recent_part(files: Seq<CompletedView>, verbose: bool, width: nat) -> Seq<DrawView> {
    if files.len() == 0 {
        Seq::empty()
    } else {
        seq![DrawView::Print("\n"@), DrawView::Print("  Recent:\n"@)] + recent_lines(
            files,
            verbose,
            width,
            shown(files.len()),
        )
    }
}

fn draw_recent(out: &mut Vec<Draw>, files: &Vec<CompletedFile>, verbose: bool, width: usize)
    ensures
        drawn(final(out)@) == drawn(old(out)@) + recent_part(
            files@.map_values(|f: CompletedFile| f@),
            verbose,
            width as nat,
        ),
{
    let ghost before = drawn(out@);
    let ghost views = files@.map_values(|f: CompletedFile| f@);
    let n: usize = files.len();
    if n == 0 {
        proof {
            assert(drawn(out@) =~= before + recent_part(views, verbose, width as nat));
        }
        return;
    }
    print(out, "\n");
    print(out, "  Recent:\n");
    let ghost opened = drawn(out@);
    let count: usize = if n < SHOWN {
        n
    } else {
        SHOWN
    };
    let mut k: usize = 0;
    proof {
        assert(drawn(out@) =~= opened + recent_lines(views, verbose, width as nat, 0));
    }
    while k < count
        invariant
            k <= count <= n,
            n == files@.len(),
            views == files@.map_values(|f: CompletedFile| f@),
            drawn(out@) == opened + recent_lines(views, verbose, width as nat, k as nat),
        decreases count - k,
    {
        let file = &files[n - 1 - k];
        proof {
            assert(views[n - (k + 1)] == file@);
        }
        let line = text::cat(file.name.as_str(), extra_info_of(file, verbose).as_str());
        print(out, "    ");
        print_colored(out, Tint::Green, "✓ ");
        print(out, truncate(line.as_str(), less_of(width, 6)).as_str());
        print(out, "\n");
        proof {
            assert(drawn(out@) =~= opened + recent_lines(
                views,
                verbose,
                width as nat,
                (k + 1) as nat,
            ));
        }
        k = k + 1;
    }
    proof {
        assert(drawn(out@) =~= before + recent_part(views, verbose, width as nat));
    }
}

// ---------------------------------------------------------------------------
// The summary
// ---------------------------------------------------------------------------

/// What is measured outside and shown in the summary.
#[derive(Debug)]
pub struct Timings {
    /// The average speed, as it is shown.
    pub speed: String,
    /// The time of all phases, as it is shown.
    pub total: String,
    pub connect: String,
    pub index: String,
    pub transfer: String,
}

/// The lines of a file that failed: what it is, and why.
pub open spec fn failure_part(f: FailedView) -> Seq<DrawView> {
    seq![DrawView::Print("    "@)] + in_color(Tint::Red, "✗ "@) + seq![
        DrawView::Print(f.remote_path),
        DrawView::Print("\n"@),
    ] + labelled("      "@, Tint::Yellow, f.error)
}

/// The lines of the first `n` files that failed.
pub open spec fn failure_lines(files: Seq<FailedView>, n: nat) -> Seq<DrawView>
    decreases n,
{
    if n == 0 {
        Seq::empty()
    } else {
        failure_lines(files, (n - 1) as nat) + failure_part(files[n - 1])
    }
}

/// The files that failed, as far as they are listed.
pub open spec fn failures_part(failed: u64, files: Seq<FailedView>) -> Seq<DrawView> {
    if failed == 0 {
        Seq::empty()
    } else {
        seq![DrawView::Print("  "@)] + in_color(
            Tint::Red,
            "Failed: "@ + text::decimal_text(failed as nat) + "\n"@,
        ) + seq![
            DrawView::Print("\n"@),
            DrawView::Print("  "@),
            DrawView::Color(Tint::Red),
            DrawView::Bold,
            DrawView::Print("Failed files:\n"@),
            DrawView::ResetStyle,
            DrawView::ResetColor,
        ] + (if files.len() > LISTED {
            failure_lines(files, LISTED as nat) + seq![DrawView::Print("    "@)] + in_color(
                Tint::DarkGrey,
                "... and "@ + text::decimal_text((files.len() - LISTED) as nat) + " more\n"@,
            )
        } else {
            failure_lines(files, files.len())
        })
    }
}

fn draw_failures(out: &mut Vec<Draw>, failed: u64, files: &Vec<FailedFile>)
    ensures
        drawn(final(out)@) == drawn(old(out)@) + failures_part(
            failed,
            files@.map_values(|f: FailedFile| f@),
        ),
{
    let ghost before = drawn(out@);
    let ghost views = files@.map_values(|f: FailedFile| f@);
    if failed == 0 {
        proof {
            assert(drawn(out@) =~= before + failures_part(failed, views));
        }
        return;
    }
    print(out, "  ");
    print_colored(
        out,
        Tint::Red,
        text::cat3("Failed: ", text::decimal(failed).as_str(), "\n").as_str(),
    );
    print(out, "\n");
    print(out, "  ");
    put(out, Draw::Color(Tint::Red));
    put(out, Draw::Bold);
    print(out, "Failed files:\n");
    put(out, Draw::ResetStyle);
    put(out, Draw::ResetColor);
    let ghost opened = drawn(out@);
    let n: usize = files.len();
    let count: usize = if n > LISTED {
        LISTED
    } else {
        n
    };
    let mut i: usize = 0;
    proof {
        assert(drawn(out@) =~= opened + failure_lines(views, 0));
    }
    while i < count
        invariant
            i <= count <= n,
            n == files@.len(),
            views == files@.map_values(|f: FailedFile| f@),
            drawn(out@) == opened + failure_lines(views, i as nat),
        decreases count - i,
    {
        let file = &files[i];
        proof {
            assert(views[i as int] == file@);
        }
        print(out, "    ");
        print_colored(out, Tint::Red, "✗ ");
        print(out, file.remote_path.as_str());
        print(out, "\n");
        print_labelled(out, "      ", Tint::Yellow, file.error.as_str());
        proof {
            assert(drawn(out@) =~= opened + failure_lines(views, (i + 1) as nat));
        }
        i = i + 1;
    }
    if n > LISTED {
        let rest: usize = n - LISTED;
        print(out, "    ");
        print_colored(
            out,
            Tint::DarkGrey,
            text::cat3("... and ", text::decimal(rest as u64).as_str(), " more\n").as_str(),
        );
    }
    proof {
        assert(drawn(out@) =~= before + failures_part(failed, views));
    }
}

/// How long the phases took.
pub open spec fn timing_part(
    total: Seq<char>,
    connect: Seq<char>,
    index: Seq<char>,
    transfer: Seq<char>,
) -> Seq<DrawView> {
    seq![DrawView::Print("  Timing: "@)] + in_bold(total) + seq![DrawView::Print(" (connect: "@)]
        + in_bold(connect) + seq![DrawView::Print(", index: "@)] + in_bold(index) + seq![
        DrawView::Print(", transfer: "@),
    ] + in_bold(transfer) + seq![DrawView::Print(")\n"@)]
}

fn draw_timing(out: &mut Vec<Draw>, t: &Timings)
    ensures
        drawn(final(out)@) == drawn(old(out)@) + timing_part(
            t.total@,
            t.connect@,
            t.index@,
            t.transfer@,
        ),
{
    let ghost before = drawn(out@);
    print(out, "  Timing: ");
    print_bold(out, t.total.as_str());
    print(out, " (connect: ");
    print_bold(out, t.connect.as_str());
    print(out, ", index: ");
    print_bold(out, t.index.as_str());
    print(out, ", transfer: ");
    print_bold(out, t.transfer.as_str());
    print(out, ")\n");
    proof {
        assert(drawn(out@) =~= before + timing_part(t.total@, t.connect@, t.index@, t.transfer@));
    }
}

/// How many files went over, where it is more than one, and how many were there already.
pub open spec fn counts_part(completed: u64, skipped: u64) -> Seq<DrawView> {
    (if completed > 1 {
        labelled("  Files: "@, Tint::Green, text::decimal_text(completed as nat))
    } else {
        Seq::empty()
    }) + (if skipped > 0 {
        labelled(
            "  Skipped (already complete): "@,
            Tint::Green,
            text::decimal_text(skipped as nat),
        )
    } else {
        Seq::empty()
    })
}

fn draw_counts(out: &mut Vec<Draw>, completed: u64, skipped: u64)
    ensures
        drawn(final(out)@) == drawn(old(out)@) + counts_part(completed, skipped),
{
    let ghost before = drawn(out@);
    if completed > 1 {
        print_labelled(out, "  Files: ", Tint::Green, text::decimal(completed).as_str());
    }
    if skipped > 0 {
        print_labelled(
            out,
            "  Skipped (already complete): ",
            Tint::Green,
            text::decimal(skipped).as_str(),
        );
    }
    proof {
        assert(drawn(out@) =~= before + counts_part(completed, skipped));
    }
}

// ---------------------------------------------------------------------------
// The display
// ---------------------------------------------------------------------------

/// The display of a transfer.
#[derive(Debug)]
pub struct ProgressDisplay {
    pub verbose: bool,
    pub running: bool,
}

/// A frame: where the files come from, the bar, the counts, the agents, and what happened last.
pub open spec fn frame(
    t: ProgressView,
    states: Seq<AgentState>,
    verbose: bool,
    width: nat,
    g: Gauges,
) -> Seq<DrawView> {
    seq![DrawView::Home, DrawView::Clear] + header_part(t.source_desc, t.dest_desc, width)
        + bar_part(g.filled as nat, g.percent@) + stats_part(
        t.bytes_transferred,
        t.total_bytes,
        g.speed@,
        g.elapsed@,
        g.eta,
    ) + files_part(t.files_completed, t.total_files, t.files_failed) + seq![
        DrawView::Print("\n"@),
        DrawView::Print("  Agents:\n"@),
    ] + agents_part(states, t.agent_jobs, width) + log_part(t.log_events, width) + recent_part(
        t.recent_files,
        verbose,
        width,
    )
}

/// The summary at the end: what went over, how fast, how long it took, and what failed.
pub open spec fn summary(t: ProgressView, times: Timings) -> Seq<DrawView> {
    seq![DrawView::ShowCursor, DrawView::Print("\n\n"@)] + in_color(Tint::Green, "✓"@) + labelled(
        " Transfer complete: "@,
        Tint::Yellow,
        speed::size_text(t.bytes_transferred),
    ) + labelled("  Average speed: "@, Tint::Cyan, times.speed@) + timing_part(
        times.total@,
        times.connect@,
        times.index@,
        times.transfer@,
    ) + counts_part(t.files_completed, t.files_skipped) + failures_part(
        t.files_failed,
        t.failed_files,
    ) + seq![DrawView::Print("\n"@)]
}

impl ProgressDisplay {
    /// A display that does not run yet.
    pub fn new(verbose: bool) -> (r: Self)
        ensures
            r == (ProgressDisplay { verbose, running: false }),
    {
        ProgressDisplay { verbose, running: false }
    }

    /// Frames are shown from now on.
    pub fn start(&mut self)
        ensures
            *final(self) == (ProgressDisplay { running: true, ..*old(self) }),
    {
        self.running = true;
    }

    /// No more frames are shown.
    pub fn stop(&mut self)
        ensures
            *final(self) == (ProgressDisplay { running: false, ..*old(self) }),
    {
        self.running = false;
    }

    /// Whether frames are shown.
    pub fn is_running(&self) -> (r: bool)
        ensures
            r == self.running,
    {
        self.running
    }

    /// A frame.
    pub fn render(
        &self,
        tracker: &ProgressTracker,
        pool: &AgentPool,
        width: usize,
        gauges: &Gauges,
    ) -> (r: Vec<Draw>)
        ensures
            drawn(r@) == frame(tracker@, pool.states(), self.verbose, width as nat, *gauges),
    {
        let mut out: Vec<Draw> = Vec::new();
        put(&mut out, Draw::Home);
        put(&mut out, Draw::Clear);
        proof {
            assert(drawn(out@) =~= seq![DrawView::Home, DrawView::Clear]);
        }
        draw_header(
            &mut out,
            tracker.source_desc.as_str(),
            tracker.dest_desc.as_str(),
            width,
        );
        draw_bar(&mut out, gauges.filled, gauges.percent.as_str());
        draw_stats(
            &mut out,
            tracker.bytes_transferred,
            tracker.total_bytes,
            gauges.speed.as_str(),
            gauges.elapsed.as_str(),
            gauges.eta,
        );
        draw_files(&mut out, tracker.files_completed, tracker.total_files, tracker.files_failed);
        let ghost a = drawn(out@);
        print(&mut out, "\n");
        print(&mut out, "  Agents:\n");
        proof {
            assert(drawn(out@) =~= a + seq![
                DrawView::Print("\n"@),
                DrawView::Print("  Agents:\n"@),
            ]);
        }
        draw_agents(&mut out, pool, &tracker.agent_jobs, width);
        draw_log(&mut out, &tracker.log_events, width);
        draw_recent(&mut out, &tracker.recent_files, self.verbose, width);
        out
    }

    /// The last frame.
    pub fn render_final(
        &self,
        tracker: &ProgressTracker,
        pool: &AgentPool,
        width: usize,
        gauges: &Gauges,
    ) -> (r: Vec<Draw>)
        ensures
            drawn(r@) == frame(tracker@, pool.states(), self.verbose, width as nat, *gauges),
    {
        self.render(tracker, pool, width, gauges)
    }

    /// The summary at the end.
    pub fn print_summary(&self, tracker: &ProgressTracker, timings: &Timings) -> (r: Vec<Draw>)
        ensures
            drawn(r@) == summary(tracker@, *timings),
    {
        let mut out: Vec<Draw> = Vec::new();
        put(&mut out, Draw::ShowCursor);
        print(&mut out, "\n\n");
        proof {
            assert(drawn(out@) =~= seq![DrawView::ShowCursor, DrawView::Print("\n\n"@)]);
        }
        print_colored(&mut out, Tint::Green, "✓");
        print_labelled(
            &mut out,
            " Transfer complete: ",
            Tint::Yellow,
            speed::format_bytes(tracker.bytes_transferred).as_str(),
        );
        print_labelled(&mut out, "  Average speed: ", Tint::Cyan, timings.speed.as_str());
        draw_timing(&mut out, timings);
        draw_counts(&mut out, tracker.files_completed, tracker.files_skipped);
        draw_failures(&mut out, tracker.files_failed, &tracker.failed_files);
        let ghost a = drawn(out@);
        print(&mut out, "\n");
        proof {
            assert(drawn(out@) =~= a + seq![DrawView::Print("\n"@)]);
        }
        out
    }
}

// ---------------------------------------------------------------------------
// Laws
// ---------------------------------------------------------------------------

/// Text that was cut keeps its front, and where it is cut in its middle its end too, as evenly as
/// that goes.
pub proof fn lemma_cut_text_keeps_its_ends(s: &str, max: usize, a: String, b: String)
    requires
        s@.len() > max,
        max > 3,
        call_ensures(truncate, (s, max), a),
        call_ensures(truncate_middle, (s, max), b),
    ensures
        a@.len() == max && b@.len() == max,
        forall|i: int| 0 <= i < max - 3 ==> a@[i] == #[trigger] s@[i],
        a@.skip(max - 3) == "..."@,
        exists|f: int, l: int|
            {
                &&& f + 3 + l == max
                &&& l <= f <= l + 1
                &&& #[trigger] b@.take(f) == s@.take(f)
                &&& b@.subrange(f, f + 3) == "..."@
                &&& b@.skip(max - l) == #[trigger] s@.skip(s@.len() - l)
            },
{
    reveal_strlit("...");
    assert(a@.skip(max - 3) =~= "..."@);
    let f = (max - 3 + 1) / 2;
    let l = (max - 3) / 2;
    assert(b@.take(f) =~= s@.take(f));
    assert(b@.subrange(f, f + 3) =~= "..."@);
    assert(b@.skip(max - l) =~= s@.skip(s@.len() - l));
}

/// As many agents stand in a row as fit, and at least one.
pub proof fn lemma_rows_are_full(width: nat)
    ensures
        columns(width) >= 1,
        columns(width) == 1 || 4 + columns(width) * CELL_WIDTH <= width,
        4 + (columns(width) + 1) * CELL_WIDTH > width,
{
}

/// The states of an agent look different.
pub proof fn lemma_states_look_different(a: AgentState, b: AgentState)
    ensures
        agent_sign(a) == agent_sign(b) ==> a == b,
        agent_sign(a).0.len() == 1,
        agent_sign(a).0 == "●"@ <==> a is Busy,
        agent_sign(a).1 == Tint::Red <==> a is Unhealthy,
{
    reveal_strlit("○");
    reveal_strlit("●");
    reveal_strlit("✕");
    assert("○"@[0] != "●"@[0]);
    assert("✕"@[0] != "●"@[0]);
}

/// A cell names its agent and says what it does.
pub proof fn lemma_cell_names_its_agent(i: nat, state: AgentState, job: Option<Seq<char>>)
    ensures
        exists|number: Seq<char>, name: Seq<char>|
            {
                &&& cell_text(i, state, job) == #[trigger] (agent_sign(state).0 + number + ":"@
                    + name)
                &&& number.len() >= 2
                &&& text::digits_number(number, 10) == i
                &&& name.len() <= 27
                &&& match job {
                    Some(j) => (j.len() <= 27 ==> name == j) && (j.len() > 27 ==> name.take(24)
                        == j.take(24)),
                    None => name == "-"@,
                }
            },
{
    let number = text::padded(text::decimal_text(i), 2, '0');
    let doing = match job {
        Some(j) => j,
        None => "-"@,
    };
    let name = cut_end(doing, 27);
    reveal_strlit("-");
    reveal_strlit("...");
    lemma_cut_text_fits(doing, 27);
    if doing.len() > 27 {
        assert(name.take(24) =~= doing.take(24));
    }
    text::lemma_number_is_written(i, 10);
    text::lemma_padded_number(text::decimal_text(i), 2, 10);
    assert(cell_text(i, state, job) == agent_sign(state).0 + number + ":"@ + name);
}

proof fn lemma_drawn_in_sum(a: Seq<DrawView>, b: Seq<DrawView>, d: DrawView)
    ensures
        a.contains(d) ==> (a + b).contains(d),
        b.contains(d) ==> (a + b).contains(d),
{
    if a.contains(d) {
        let i = choose|i: int| 0 <= i < a.len() && a[i] == d;
        assert((a + b)[i] == d);
    }
    if b.contains(d) {
        let i = choose|i: int| 0 <= i < b.len() && b[i] == d;
        assert((a + b)[a.len() + i] == d);
    }
}

/// Every agent has its cell.
proof fn lemma_agent_is_among_cells(
    states: Seq<AgentState>,
    jobs: Seq<Option<Seq<char>>>,
    cols: nat,
    n: nat,
    i: nat,
)
    requires
        i < n,
    ensures
        cells_part(states, jobs, cols, n).contains(
            DrawView::Print(cell_text(i, states[i as int], job_of(jobs, i as int))),
        ),
    decreases n,
{
    let d = DrawView::Print(cell_text(i, states[i as int], job_of(jobs, i as int)));
    let k = (n - 1) as nat;
    let last = cell_part(k, states[k as int], job_of(jobs, k as int), cols);
    if i < k {
        lemma_agent_is_among_cells(states, jobs, cols, k, i);
    } else {
        assert(last[last.len() - 3] == d);
    }
    lemma_drawn_in_sum(cells_part(states, jobs, cols, k), last, d);
}

/// The events are listed, the newest first, and errors stand out.
pub proof fn lemma_newest_event_comes_first(events: Seq<LogView>, width: nat, n: nat, k: int)
    requires
        0 <= k < n <= events.len(),
    ensures
        events_part(events, width, n).len() == 5 * n,
        events_part(events, width, n)[5 * k + 1] == DrawView::Color(
            if events[events.len() - 1 - k].is_error {
                Tint::Red
            } else {
                Tint::Yellow
            },
        ),
        events_part(events, width, n)[5 * k + 2] == DrawView::Print(
            cut_end(events[events.len() - 1 - k].message, less(width, 6)),
        ),
    decreases n,
{
    let m = (n - 1) as nat;
    let front = events_part(events, width, m);
    let line = event_part(events[events.len() - n], width);
    if k < m {
        lemma_newest_event_comes_first(events, width, m, k);
    } else if m > 0 {
        lemma_newest_event_comes_first(events, width, m, 0);
    }
    assert(front.len() == 5 * m);
    if k == m {
        assert(events_part(events, width, n)[5 * k + 1] == line[1]);
        assert(events_part(events, width, n)[5 * k + 2] == line[2]);
    }
}

/// The files that went over are listed, the newest first.
pub proof fn lemma_newest_file_comes_first(
    files: Seq<CompletedView>,
    verbose: bool,
    width: nat,
    n: nat,
    k: int,
)
    requires
        0 <= k < n <= files.len(),
    ensures
        recent_lines(files, verbose, width, n).len() == 6 * n,
        recent_lines(files, verbose, width, n)[6 * k + 4] == DrawView::Print(
            cut_end(
                files[files.len() - 1 - k].name + extra_info(files[files.len() - 1 - k], verbose),
                less(width, 6),
            ),
        ),
    decreases n,
{
    let m = (n - 1) as nat;
    let front = recent_lines(files, verbose, width, m);
    let line = file_part(files[files.len() - n], verbose, width);
    if k < m {
        lemma_newest_file_comes_first(files, verbose, width, m, k);
    } else if m > 0 {
        lemma_newest_file_comes_first(files, verbose, width, m, 0);
    }
    assert(front.len() == 6 * m);
    if k == m {
        assert(recent_lines(files, verbose, width, n)[6 * k + 4] == line[4]);
    }
}

/// The files that failed are listed in their order, each with the reason.
pub proof fn lemma_failures_are_listed(files: Seq<FailedView>, n: nat, k: int)
    requires
        0 <= k < n <= files.len(),
    ensures
        failure_lines(files, n).len() == 11 * n,
        failure_lines(files, n)[11 * k + 4] == DrawView::Print(files[k].remote_path),
        failure_lines(files, n)[11 * k + 8] == DrawView::Print(files[k].error),
    decreases n,
{
    let m = (n - 1) as nat;
    let front = failure_lines(files, m);
    let line = failure_part(files[n - 1]);
    if k < m {
        lemma_failures_are_listed(files, m, k);
    } else if m > 0 {
        lemma_failures_are_listed(files, m, 0);
    }
    assert(front.len() == 11 * m);
    if k == m {
        assert(failure_lines(files, n)[11 * k + 4] == line[4]);
        assert(failure_lines(files, n)[11 * k + 8] == line[8]);
    }
}

/// Behind the name of a file stands a mark exactly where its digest is known; and where the user
/// wants to see more, both digests, the permissions and the time.
pub proof fn lemma_digests_are_marked(f: CompletedView)
    ensures
        extra_info(f, false) == if f.local_md5 is Some {
            " ✓"@
        } else {
            Seq::empty()
        },
        exists|digests: Seq<char>, mode: Seq<char>, time: Seq<char>|
            {
                &&& extra_info(f, true) == #[trigger] (digests + " mode="@ + mode + " mtime="@
                    + time)
                &&& text::digits_number(mode, 8) == f.mode & 0o7777
                &&& mode.len() >= 4
                &&& text::digits_number(time, 10) == f.mtime
                &&& f.local_md5 is Some && f.remote_md5 is Some ==> digests == " ("@
                    + f.local_md5.unwrap() + " = "@ + f.remote_md5.unwrap() + ")"@
                &&& f.local_md5 is None || f.remote_md5 is None ==> digests.len() == 0
            },
{
    let digests = match (f.local_md5, f.remote_md5) {
        (Some(a), Some(b)) => " ("@ + a + " = "@ + b + ")"@,
        _ => Seq::empty(),
    };
    let bits = (f.mode & 0o7777u32) as nat;
    let mode = text::padded(text::octal_text(bits), 4, '0');
    let time = text::decimal_text(f.mtime as nat);
    text::lemma_number_is_written(bits, 8);
    text::lemma_number_is_written(f.mtime as nat, 10);
    text::lemma_padded_number(text::octal_text(bits), 4, 8);
    assert(extra_info(f, true) == digests + " mode="@ + mode + " mtime="@ + time);
}

proof fn lemma_header_is_drawn(source: Seq<char>, dest: Seq<char>, width: nat)
    requires
        source.len() > 0,
    ensures
        header_part(source, dest, width).contains(
            DrawView::Print(cut_middle(source, less(width, 6))),
        ),
        header_part(source, dest, width).contains(
            DrawView::Print(cut_middle(dest, less(width, 6))),
        ),
{
    let h = header_part(source, dest, width);
    assert(h[4] == DrawView::Print(cut_middle(source, less(width, 6))));
    assert(h[7] == DrawView::Print(cut_middle(dest, less(width, 6))));
}

proof fn lemma_stats_are_drawn(
    transferred: u64,
    total: u64,
    speed: Seq<char>,
    elapsed: Seq<char>,
    eta: Option<u64>,
)
    ensures
        ({
            let p = stats_part(transferred, total, speed, elapsed, eta);
            &&& p.contains(DrawView::Print(speed::size_text(transferred)))
            &&& p.contains(DrawView::Print(speed::size_text(total)))
            &&& p.contains(DrawView::Print(speed))
            &&& p.contains(DrawView::Print(elapsed))
            &&& p.contains(
                DrawView::Print(
                    match eta {
                        Some(s) => speed::duration_text(s),
                        None => "--:--"@,
                    },
                ),
            )
        }),
{
    let p = stats_part(transferred, total, speed, elapsed, eta);
    assert(p[3] == DrawView::Print(speed::size_text(transferred)));
    assert(p[7] == DrawView::Print(speed::size_text(total)));
    assert(p[12] == DrawView::Print(speed));
    assert(p[17] == DrawView::Print(elapsed));
    assert(p[22] == DrawView::Print(eta_text(eta)));
}

/// A frame shows where the files come from and where they go, how much went over of how much, how
/// fast, how long it takes and took, how many files went over of how many, and how many failed,
/// where some did.
#[verifier::rlimit(40)]
pub proof fn lemma_frame_shows_the_state(
    d: &ProgressDisplay,
    t: &ProgressTracker,
    pool: &AgentPool,
    width: usize,
    g: &Gauges,
    r: Vec<Draw>,
)
    requires
        call_ensures(ProgressDisplay::render, (d, t, pool, width, g), r),
    ensures
        ({
            let f = drawn(r@);
            &&& f.len() >= 2 && f[0] == DrawView::Home && f[1] == DrawView::Clear
            &&& t.source_desc@.len() > 0 ==> f.contains(
                DrawView::Print(cut_middle(t.source_desc@, less(width as nat, 6))),
            ) && f.contains(DrawView::Print(cut_middle(t.dest_desc@, less(width as nat, 6))))
            &&& f.contains(DrawView::Print(" "@ + g.percent@ + "%\n"@))
            &&& f.contains(DrawView::Print(speed::size_text(t.bytes_transferred)))
            &&& f.contains(DrawView::Print(speed::size_text(t.total_bytes)))
            &&& f.contains(DrawView::Print(g.speed@))
            &&& f.contains(DrawView::Print(g.elapsed@))
            &&& f.contains(
                DrawView::Print(
                    match g.eta {
                        Some(s) => speed::duration_text(s),
                        None => "--:--"@,
                    },
                ),
            )
            &&& f.contains(
                DrawView::Print(
                    "  Files   : "@ + text::decimal_text(t.files_completed as nat) + " / "@
                        + text::decimal_text(t.total_files as nat),
                ),
            )
            &&& t.files_failed > 0 ==> f.contains(
                DrawView::Print(text::decimal_text(t.files_failed as nat) + " failed"@),
            )
        }),
{
    let v = t@;
    let w = width as nat;
    let p0 = seq![DrawView::Home, DrawView::Clear];
    let p1 = header_part(v.source_desc, v.dest_desc, w);
    let p2 = bar_part(g.filled as nat, g.percent@);
    let p3 = stats_part(v.bytes_transferred, v.total_bytes, g.speed@, g.elapsed@, g.eta);
    let p4 = files_part(v.files_completed, v.total_files, v.files_failed);
    let p5 = seq![DrawView::Print("\n"@), DrawView::Print("  Agents:\n"@)];
    let p6 = agents_part(pool.states(), v.agent_jobs, w);
    let p7 = log_part(v.log_events, w);
    let p8 = recent_part(v.recent_files, d.verbose, w);
    let f = drawn(r@);
    assert(f == p0 + p1 + p2 + p3 + p4 + p5 + p6 + p7 + p8);
    assert forall|x: DrawView|
        p1.contains(x) || p2.contains(x) || p3.contains(x) || p4.contains(
            x,
        ) implies #[trigger] f.contains(x) by {
        lemma_drawn_in_sum(p0, p1, x);
        lemma_drawn_in_sum(p0 + p1, p2, x);
        lemma_drawn_in_sum(p0 + p1 + p2, p3, x);
        lemma_drawn_in_sum(p0 + p1 + p2 + p3, p4, x);
        lemma_drawn_in_sum(p0 + p1 + p2 + p3 + p4, p5, x);
        lemma_drawn_in_sum(p0 + p1 + p2 + p3 + p4 + p5, p6, x);
        lemma_drawn_in_sum(p0 + p1 + p2 + p3 + p4 + p5 + p6, p7, x);
        lemma_drawn_in_sum(p0 + p1 + p2 + p3 + p4 + p5 + p6 + p7, p8, x);
    }
    if v.source_desc.len() > 0 {
        lemma_header_is_drawn(v.source_desc, v.dest_desc, w);
    }
    lemma_stats_are_drawn(v.bytes_transferred, v.total_bytes, g.speed@, g.elapsed@, g.eta);
    assert(p2[9] == DrawView::Print(" "@ + g.percent@ + "%\n"@));
    assert(p4[0] == DrawView::Print(
        "  Files   : "@ + text::decimal_text(v.files_completed as nat) + " / "@
            + text::decimal_text(v.total_files as nat),
    ));
    if v.files_failed > 0 {
        assert(p4[3] == DrawView::Print(text::decimal_text(v.files_failed as nat) + " failed"@));
    }
}

/// A frame shows every agent and what it does, and ends with what happened last: of the events and of
/// the files that went over the last five, the newest first.
#[verifier::rlimit(40)]
pub proof fn lemma_frame_shows_agents_and_news(
    d: &ProgressDisplay,
    t: &ProgressTracker,
    pool: &AgentPool,
    width: usize,
    g: &Gauges,
    r: Vec<Draw>,
)
    requires
        call_ensures(ProgressDisplay::render, (d, t, pool, width, g), r),
    ensures
        ({
            let f = drawn(r@);
            let events = t@.log_events;
            let files = t@.recent_files;
            let room = less(width as nat, 6);
            &&& forall|i: int|
                0 <= i < pool.agents@.len() ==> f.contains(
                    DrawView::Print(
                        cell_text(
                            i as nat,
                            (#[trigger] pool.states()[i]),
                            if i < t@.agent_jobs.len() {
                                t@.agent_jobs[i]
                            } else {
                                None
                            },
                        ),
                    ),
                )
            &&& forall|k: int|
                0 <= k < events.len() && events.len() - 5 <= k ==> f.contains(
                    DrawView::Print(cut_end((#[trigger] events[k]).message, room)),
                )
            &&& forall|k: int|
                0 <= k < files.len() && files.len() - 5 <= k ==> f.contains(
                    DrawView::Print(
                        cut_end((#[trigger] files[k]).name + extra_info(files[k], d.verbose), room),
                    ),
                )
        }),
{
    let v = t@;
    let w = width as nat;
    let room = less(w, 6);
    let front = seq![DrawView::Home, DrawView::Clear] + header_part(v.source_desc, v.dest_desc, w)
        + bar_part(g.filled as nat, g.percent@) + stats_part(
        v.bytes_transferred,
        v.total_bytes,
        g.speed@,
        g.elapsed@,
        g.eta,
    ) + files_part(v.files_completed, v.total_files, v.files_failed) + seq![
        DrawView::Print("\n"@),
        DrawView::Print("  Agents:\n"@),
    ];
    let n = pool.states().len();
    let cells = cells_part(pool.states(), v.agent_jobs, columns(w), n);
    let p6 = agents_part(pool.states(), v.agent_jobs, w);
    let p7 = log_part(v.log_events, w);
    let p8 = recent_part(v.recent_files, d.verbose, w);
    let f = drawn(r@);
    assert(f == front + p6 + p7 + p8);
    assert forall|x: DrawView|
        p6.contains(x) || p7.contains(x) || p8.contains(x) implies #[trigger] f.contains(x) by {
        lemma_drawn_in_sum(front, p6, x);
        lemma_drawn_in_sum(front + p6, p7, x);
        lemma_drawn_in_sum(front + p6 + p7, p8, x);
    }
    assert forall|i: int| 0 <= i < pool.agents@.len() implies f.contains(
        DrawView::Print(
            cell_text(
                i as nat,
                (#[trigger] pool.states()[i]),
                if i < t@.agent_jobs.len() {
                    t@.agent_jobs[i]
                } else {
                    None
                },
            ),
        ),
    ) by {
        lemma_agent_is_among_cells(pool.states(), v.agent_jobs, columns(w), n, i as nat);
        lemma_drawn_in_sum(
            cells,
            seq![DrawView::Print("\n"@)],
            DrawView::Print(
                cell_text(i as nat, pool.states()[i], job_of(v.agent_jobs, i)),
            ),
        );
    }
    let events = v.log_events;
    assert forall|k: int| 0 <= k < events.len() && events.len() - 5 <= k implies f.contains(
        DrawView::Print(cut_end((#[trigger] events[k]).message, room)),
    ) by {
        let m = shown(events.len());
        let back = events.len() - 1 - k;
        lemma_newest_event_comes_first(events, w, m, back);
        assert(p7[2 + (5 * back + 2)] == events_part(events, w, m)[5 * back + 2]);
    }
    let files = v.recent_files;
    assert forall|k: int| 0 <= k < files.len() && files.len() - 5 <= k implies f.contains(
        DrawView::Print(
            cut_end((#[trigger] files[k]).name + extra_info(files[k], d.verbose), room),
        ),
    ) by {
        let m = shown(files.len());
        let back = files.len() - 1 - k;
        lemma_newest_file_comes_first(files, d.verbose, w, m, back);
        assert(p8[2 + (6 * back + 4)] == recent_lines(files, d.verbose, w, m)[6 * back + 4]);
    }
}

/// The bar is as wide as it should be, however much of it is filled.
pub proof fn lemma_bar_keeps_its_width(filled: nat, percent: Seq<char>)
    requires
        filled <= 40,
    ensures
        exists|full: Seq<char>, rest: Seq<char>|
            {
                &&& #[trigger] bar_part(filled, percent).contains(DrawView::Print(full))
                &&& #[trigger] bar_part(filled, percent).contains(DrawView::Print(rest))
                &&& full.len() == filled
                &&& full.len() + rest.len() == 40
                &&& forall|i: int| 0 <= i < full.len() ==> full[i] == '█'
                &&& forall|i: int| 0 <= i < rest.len() ==> rest[i] == '░'
            },
{
    reveal_strlit("█");
    reveal_strlit("░");
    let p = bar_part(filled, percent);
    let full = text::repeated("█"@, filled);
    let rest = text::repeated("░"@, less(PROGRESS_BAR_WIDTH as nat, filled));
    text::lemma_repeated("█"@, filled);
    text::lemma_repeated("░"@, less(PROGRESS_BAR_WIDTH as nat, filled));
    assert(p[4] == DrawView::Print(full));
    assert(p[7] == DrawView::Print(rest));
    assert(p.contains(DrawView::Print(full)) && p.contains(DrawView::Print(rest)));
    assert("█"@[0] == '█' && "░"@[0] == '░');
}

/// The files that failed are named with the reason, the first twenty of them, and how many more there
/// are.
pub proof fn lemma_failures_are_named(failed: u64, files: Seq<FailedView>, k: int)
    requires
        failed > 0,
        0 <= k < files.len(),
    ensures
        ({
            let p = failures_part(failed, files);
            &&& p.contains(
                DrawView::Print("Failed: "@ + text::decimal_text(failed as nat) + "\n"@),
            )
            &&& k < 20 ==> p.contains(DrawView::Print(files[k].remote_path)) && p.contains(
                DrawView::Print(files[k].error),
            )
            &&& files.len() > 20 ==> p.contains(
                DrawView::Print(
                    "... and "@ + text::decimal_text((files.len() - 20) as nat) + " more\n"@,
                ),
            )
            &&& p.len() == if files.len() > 20 {
                11 + 11 * 20 + 4
            } else {
                11 + 11 * files.len()
            }
        }),
{
    let p = failures_part(failed, files);
    let n = if files.len() > LISTED {
        LISTED as nat
    } else {
        files.len()
    };
    let lines = failure_lines(files, n);
    assert(p[2] == DrawView::Print("Failed: "@ + text::decimal_text(failed as nat) + "\n"@));
    lemma_failures_are_listed(files, n, 0);
    if k < n {
        lemma_failures_are_listed(files, n, k);
        assert(p[11 + (11 * k + 4)] == lines[11 * k + 4]);
        assert(p[11 + (11 * k + 8)] == lines[11 * k + 8]);
    }
    if files.len() > LISTED {
        assert(p[(11 + lines.len() + 2) as int] == DrawView::Print(
            "... and "@ + text::decimal_text((files.len() - LISTED) as nat) + " more\n"@,
        ));
    }
}

/// The summary says how much went over, how fast and how long it took, how many files were there
/// already, and which failed; nothing failed, nothing is said of it.
#[verifier::rlimit(40)]
pub proof fn lemma_summary_tells_all(
    d: &ProgressDisplay,
    t: &ProgressTracker,
    times: &Timings,
    r: Vec<Draw>,
    k: int,
)
    requires
        call_ensures(ProgressDisplay::print_summary, (d, t, times), r),
    ensures
        ({
            let f = drawn(r@);
            &&& f[0] == DrawView::ShowCursor
            &&& f.contains(DrawView::Print(speed::size_text(t.bytes_transferred)))
            &&& f.contains(DrawView::Print(times.speed@))
            &&& f.contains(DrawView::Print(times.total@))
            &&& f.contains(DrawView::Print(times.connect@))
            &&& f.contains(DrawView::Print(times.index@))
            &&& f.contains(DrawView::Print(times.transfer@))
            &&& t.files_completed > 1 ==> f.contains(
                DrawView::Print(text::decimal_text(t.files_completed as nat)),
            )
            &&& t.files_skipped > 0 ==> f.contains(
                DrawView::Print(text::decimal_text(t.files_skipped as nat)),
            )
            &&& t.files_failed > 0 && 0 <= k < t@.failed_files.len() && k < 20 ==> f.contains(
                DrawView::Print(t@.failed_files[k].remote_path),
            ) && f.contains(DrawView::Print(t@.failed_files[k].error))
            &&& t.files_failed == 0 ==> f.len() == 33 + (if t.files_completed > 1 {
                5int
            } else {
                0
            }) + (if t.files_skipped > 0 {
                5int
            } else {
                0
            })
        }),
{
    let v = t@;
    let p0 = seq![DrawView::ShowCursor, DrawView::Print("\n\n"@)] + in_color(Tint::Green, "✓"@)
        + labelled(
        " Transfer complete: "@,
        Tint::Yellow,
        speed::size_text(v.bytes_transferred),
    ) + labelled("  Average speed: "@, Tint::Cyan, times.speed@) + timing_part(
        times.total@,
        times.connect@,
        times.index@,
        times.transfer@,
    );
    let p1 = counts_part(v.files_completed, v.files_skipped);
    let p2 = failures_part(v.files_failed, v.failed_files);
    let p3 = seq![DrawView::Print("\n"@)];
    let f = drawn(r@);
    assert(f == p0 + p1 + p2 + p3);
    assert forall|x: DrawView|
        p0.contains(x) || p1.contains(x) || p2.contains(x) implies #[trigger] f.contains(x) by {
        lemma_drawn_in_sum(p0, p1, x);
        lemma_drawn_in_sum(p0 + p1, p2, x);
        lemma_drawn_in_sum(p0 + p1 + p2, p3, x);
    }
    assert(p0[7] == DrawView::Print(speed::size_text(v.bytes_transferred)));
    assert(p0[12] == DrawView::Print(times.speed@));
    assert(p0[17] == DrawView::Print(times.total@));
    assert(p0[21] == DrawView::Print(times.connect@));
    assert(p0[25] == DrawView::Print(times.index@));
    assert(p0[29] == DrawView::Print(times.transfer@));
    if v.files_completed > 1 {
        assert(p1[2] == DrawView::Print(text::decimal_text(v.files_completed as nat)));
    }
    if v.files_skipped > 0 {
        assert(p1[p1.len() - 3] == DrawView::Print(text::decimal_text(v.files_skipped as nat)));
    }
    if v.files_failed > 0 && 0 <= k < v.failed_files.len() && k < 20 {
        lemma_failures_are_named(v.files_failed, v.failed_files, k);
    }
}

/// Frames are shown from the start to the stop, and the display keeps saying as much as it was told.
pub proof fn lemma_display_runs_until_it_is_stopped(
    verbose: bool,
    made: ProgressDisplay,
    a: &mut ProgressDisplay,
    b: &mut ProgressDisplay,
    d: &ProgressDisplay,
    r: bool,
)
    requires
        call_ensures(ProgressDisplay::new, (verbose,), made),
        call_ensures(ProgressDisplay::start, (a,), ()),
        call_ensures(ProgressDisplay::stop, (b,), ()),
        call_ensures(ProgressDisplay::is_running, (d,), r),
    ensures
        *d == made ==> !r && d.verbose == verbose,
        *d == *final(a) ==> r && d.verbose == old(a).verbose,
        *d == *final(b) ==> !r && d.verbose == old(b).verbose,
{
}

/// The last frame is a frame like any other.
pub proof fn lemma_last_frame_is_a_frame(
    d: &ProgressDisplay,
    t: &ProgressTracker,
    pool: &AgentPool,
    width: usize,
    g: &Gauges,
    a: Vec<Draw>,
    b: Vec<Draw>,
)
    requires
        call_ensures(ProgressDisplay::render, (d, t, pool, width, g), a),
        call_ensures(ProgressDisplay::render_final, (d, t, pool, width, g), b),
    ensures
        drawn(a@) == drawn(b@),
{
}

} // verus!
