//! What the client looks for, and what it passes on.

use vstd::prelude::*;
use vstd::string::StringExecFns;

use crate::decimal::decimal_text;
use crate::fps_limiter::round_halves;

verus! {

/// Whether a text occurs in another one.
pub open spec fn occurs(needle: Seq<char>, haystack: Seq<char>) -> bool {
    exists|at: int|
        0 <= at && at + needle.len() <= haystack.len() && #[trigger] haystack.subrange(
            at,
            at + needle.len(),
        ) == needle
}

/// The contents of a text, if there is one.
pub open spec fn text_of(s: Option<String>) -> Option<Seq<char>> {
    match s {
        Some(t) => Some(t@),
        None => None,
    }
}

/// Whether a text occurs in another one.
///
/// Calls `str::contains` with a text to look for, which tells whether it is a part of
/// the other text.
#[verifier::external_body]
fn contains(haystack: &str, needle: &str) -> (yes: bool)
    ensures
        yes == occurs(needle@, haystack@),
{
    haystack.contains(needle)
}

/// What the first group of a pattern holds where the pattern first matches a text.
pub uninterp spec fn first_group(pattern: Seq<char>, haystack: Seq<char>) -> Option<Seq<char>>;

/// Whether a character is one of the ten digits.
pub open spec fn is_digit(c: char) -> bool {
    '0' <= c <= '9'
}

/// Whether a text holds ASCII characters alone.
pub open spec fn is_plain(s: Seq<char>) -> bool {
    forall|i: int| 0 <= i < s.len() ==> (#[trigger] s[i] as u32) < 0x80
}

/// Whether `@mangohud-` and one of the ten digits stand at a place in a text.
pub open spec fn socket_at(haystack: Seq<char>, at: int) -> bool {
    &&& 0 <= at
    &&& at + 10 < haystack.len()
    &&& haystack.subrange(at, at + 10) == "@mangohud-"@
    &&& is_digit(haystack[at + 10])
}

/// Whether a name is that of the first socket in a text, with all its digits, where the
/// `@` of the socket is at `at` and what follows the name at `end`.
pub open spec fn is_first_socket(haystack: Seq<char>, name: Seq<char>, at: int, end: int) -> bool {
    &&& socket_at(haystack, at)
    &&& forall|i: int| i < at ==> !#[trigger] socket_at(haystack, i)
    &&& at + 10 < end <= haystack.len()
    &&& forall|i: int| at + 10 <= i < end ==> is_digit(#[trigger] haystack[i])
    &&& end < haystack.len() ==> !is_digit(haystack[end])
    &&& name == haystack.subrange(at + 1, end)
}

/// What the first group of a pattern holds where the pattern first matches a text.
///
/// Calls `regex::Regex::new`, `Regex::captures` and `Captures::get`; a pattern that is
/// not in order matches nothing. Of the one pattern that is in use it is stated what it
/// finds in ASCII text: the first `mangohud-` behind an `@` and before a digit, with all
/// the digits that follow. In any text what it finds starts with `mangohud-`, has
/// something behind that, and stands behind an `@`; and it finds something where
/// `@mangohud-` is followed by one of the ten digits. Which characters outside ASCII are
/// digits, and with that which socket of several is found, is left unsaid.
#[verifier::external_body]
fn captured(pattern: &str, haystack: &str) -> (r: Option<String>)
    ensures
        text_of(r) == first_group(pattern@, haystack@),
        pattern@ == "@(mangohud-\\d+)"@ ==> (match r {
            Some(name) => {
                &&& "mangohud-"@.is_prefix_of(name@)
                &&& name@.len() > 9
                &&& occurs(seq!['@'] + name@, haystack@)
                &&& is_plain(haystack@) ==> exists|at: int, end: int|
                    is_first_socket(haystack@, name@, at, end)
            },
            None => forall|at: int| !#[trigger] socket_at(haystack@, at),
        }),
{
    let regex = regex::Regex::new(pattern).ok()?;
    Some(regex.captures(haystack)?.get(1)?.as_str().to_owned())
}

/// The name of the socket of a process.
pub open spec fn socket_of(pid: u32) -> Seq<char> {
    "mangohud-"@ + crate::decimal::decimal(pid as nat)
}

/// The socket that is meant among those that are listed: that of the child, where there
/// is one, and else the one that was found.
pub open spec fn chosen_socket(
    data: Seq<char>,
    child_pid: Option<u32>,
    found: Option<Seq<char>>,
) -> Option<Seq<char>> {
    match child_pid {
        Some(pid) => if occurs(seq!['@'] + socket_of(pid), data) {
            Some(socket_of(pid))
        } else {
            None
        },
        None => found,
    }
}

/// Picks the socket that is meant among those that are listed.
pub fn pick_socket(data: &str, child_pid: Option<u32>, found: Option<String>) -> (name: Option<
    String,
>)
    ensures
        text_of(name) == chosen_socket(data@, child_pid, text_of(found)),
{
    match child_pid {
        Some(pid) => {
            let mut target: String = "mangohud-".to_owned();
            target.append(decimal_text(pid).as_str());
            let mut marked: String = "@".to_owned();
            marked.append(target.as_str());
            proof {
                reveal_strlit("@");
                assert("@"@ =~= seq!['@']);
            }
            if contains(data, marked.as_str()) {
                Some(target)
            } else {
                None
            }
        },
        None => found,
    }
}

/// The name of MangoHud's socket, from a list of the sockets that there are.
pub fn mangohud_socket(data: &str, child_pid: Option<u32>) -> (name: Option<String>)
    ensures
        text_of(name) == chosen_socket(
            data@,
            child_pid,
            first_group("@(mangohud-\\d+)"@, data@),
        ),
        name matches Some(n) ==> "mangohud-"@.is_prefix_of(n@) && occurs(seq!['@'] + n@, data@),
        child_pid is None ==> (match name {
            Some(n) => is_plain(data@) ==> exists|at: int, end: int|
                is_first_socket(data@, n@, at, end),
            None => forall|at: int| !#[trigger] socket_at(data@, at),
        }),
{
    let found: Option<String> = match child_pid {
        Some(_) => None,
        None => captured("@(mangohud-\\d+)", data),
    };
    proof {
        if child_pid is Some {
            let pid = child_pid->0;
            assert("mangohud-"@ =~= socket_of(pid).subrange(0, "mangohud-"@.len() as int));
        }
    }
    pick_socket(data, child_pid, found)
}

/// The limit that is passed on for a limit of `halves` half frames per second.
pub open spec fn target(halves: int, min_fps: u16, max_fps: u16) -> u16 {
    let rounded = crate::fps_limiter::rounded(halves);
    if rounded < min_fps {
        min_fps
    } else if rounded > max_fps {
        max_fps
    } else {
        rounded as u16
    }
}

/// Where limits are passed on to.
#[derive(Clone, Copy, PartialEq, Eq, Debug)]
pub enum FpsSink {
    Gamescope,
    MangoHud,
}

/// How a limit is passed on.
pub enum SinkAction {
    /// Gamescope is asked for this limit.
    SetFps(u16),
    /// This is written to MangoHud.
    Write(String),
}

/// What is written to MangoHud for a limit.
pub open spec fn fps_command(fps: u16) -> Seq<char> {
    ":set_fps_limit="@ + crate::decimal::decimal(fps as nat) + ";\n"@
}

/// Passes a limit on.
pub fn receive(sink: FpsSink, limit_halves: u32, min_fps: u16, max_fps: u16) -> (action: SinkAction)
    requires
        min_fps <= max_fps,
    ensures
        match action {
            SinkAction::SetFps(fps) => sink == FpsSink::Gamescope && fps == target(
                limit_halves as int,
                min_fps,
                max_fps,
            ),
            SinkAction::Write(text) => sink == FpsSink::MangoHud && text@ == fps_command(
                target(limit_halves as int, min_fps, max_fps),
            ),
        },
{
    let rounded: u16 = round_halves(limit_halves);
    let fps: u16 = if rounded < min_fps {
        min_fps
    } else if rounded > max_fps {
        max_fps
    } else {
        rounded
    };
    match sink {
        FpsSink::Gamescope => SinkAction::SetFps(fps),
        FpsSink::MangoHud => {
            let mut text: String = ":set_fps_limit=".to_owned();
            text.append(decimal_text(fps as u32).as_str());
            text.append(";\n");
            SinkAction::Write(text)
        },
    }
}

/// What is passed on is within the bounds, and is the limit itself where that is a whole
/// number within them.
pub proof fn law_passed_on_limit_is_within_bounds(fps: u16, halves: int, min_fps: u16, max_fps: u16)
    requires
        min_fps <= max_fps,
        0 <= halves,
    ensures
        min_fps <= target(halves, min_fps, max_fps) <= max_fps,
        min_fps <= fps <= max_fps ==> target(2 * fps, min_fps, max_fps) == fps,
{
}

/// Different limits are written differently.
pub proof fn law_commands_tell_limits_apart(a: u16, b: u16)
    requires
        fps_command(a) == fps_command(b),
    ensures
        a == b,
{
    let head = ":set_fps_limit="@;
    let tail = ";\n"@;
    let da = crate::decimal::decimal(a as nat);
    let db = crate::decimal::decimal(b as nat);
    assert(fps_command(a).len() == head.len() + da.len() + tail.len());
    assert(da =~= fps_command(a).subrange(head.len() as int, (head.len() + da.len()) as int));
    assert(db =~= fps_command(b).subrange(head.len() as int, (head.len() + db.len()) as int));
    crate::decimal::law_decimal_is_unique(a as nat, b as nat);
}

/// How far the search for something to pass limits on to has come. The search goes on
/// with the answer to the question of the stage.
#[derive(Clone, Copy, PartialEq, Eq, Debug)]
pub enum Search {
    /// Can gamescope be connected to?
    AskGamescope,
    /// Can MangoHud be connected to?
    AskMangoHud,
    /// Is there a child?
    AskChild,
    /// Has the time run out?
    AskDeadline,
    /// Has the child ended while there was a wait?
    AskExit,
    /// It is gamescope.
    UseGamescope,
    /// It is MangoHud.
    UseMangoHud,
    /// There is nothing, and no child that might bring it.
    NoBackend,
    /// Nothing came in time.
    TimedOut,
    /// The child ended before anything came.
    ChildExited,
}

impl Search {
    /// Whether the search is over.
    pub open spec fn is_over(self) -> bool {
        self is UseGamescope || self is UseMangoHud || self is NoBackend || self is TimedOut
            || self is ChildExited
    }

    /// The stage after an answer.
    pub open spec fn after(self, yes: bool) -> Self {
        match (self, yes) {
            (Search::AskGamescope, true) => Search::UseGamescope,
            (Search::AskGamescope, false) => Search::AskMangoHud,
            (Search::AskMangoHud, true) => Search::UseMangoHud,
            (Search::AskMangoHud, false) => Search::AskChild,
            (Search::AskChild, true) => Search::AskDeadline,
            (Search::AskChild, false) => Search::NoBackend,
            (Search::AskDeadline, true) => Search::TimedOut,
            (Search::AskDeadline, false) => Search::AskExit,
            (Search::AskExit, true) => Search::ChildExited,
            (Search::AskExit, false) => Search::AskGamescope,
            _ => self,
        }
    }

    /// The first stage.
    pub fn new() -> (s: Self)
        ensures
            s == Search::AskGamescope,
    {
        Search::AskGamescope
    }

    /// The stage after an answer. A search that is over stays as it is.
    pub fn step(self, yes: bool) -> (s: Self)
        ensures
            s == self.after(yes),
            self.is_over() <==> (self.after(true) == self && self.after(false) == self),
    {
        match (self, yes) {
            (Search::AskGamescope, true) => Search::UseGamescope,
            (Search::AskGamescope, false) => Search::AskMangoHud,
            (Search::AskMangoHud, true) => Search::UseMangoHud,
            (Search::AskMangoHud, false) => Search::AskChild,
            (Search::AskChild, true) => Search::AskDeadline,
            (Search::AskChild, false) => Search::NoBackend,
            (Search::AskDeadline, true) => Search::TimedOut,
            (Search::AskDeadline, false) => Search::AskExit,
            (Search::AskExit, true) => Search::ChildExited,
            (Search::AskExit, false) => Search::AskGamescope,
            (stage, _) => stage,
        }
    }
}

/// Without a child the search is over after one round: gamescope where it can be had,
/// else MangoHud where it can be had, else nothing.
pub proof fn law_search_without_child_does_not_wait(gamescope: bool, mangohud: bool)
    ensures
        Search::AskGamescope.after(gamescope).after(mangohud).after(false) == if gamescope {
            Search::UseGamescope
        } else if mangohud {
            Search::UseMangoHud
        } else {
            Search::NoBackend
        },
{
}

/// How far the connection to the server has come. It goes on with whether what the stage
/// stands for went well.
#[derive(Clone, Copy, PartialEq, Eq, Debug)]
pub enum Link {
    /// Wait for the next try.
    Pause,
    /// Connect to the server.
    Connect,
    /// Ask for the service that limits frame rates.
    AskLimiter,
    /// Register with it.
    Register,
    /// Pass limits on until the connection is lost.
    Serve,
    /// Close the connection over which the service could not be had.
    CloseUnanswered,
    /// Close the connection over which there was no registering.
    CloseUnregistered,
    /// Wait after a try.
    Rest,
}

impl Link {
    /// Whether the connection is open at this stage.
    pub open spec fn is_open(self) -> bool {
        self is AskLimiter || self is Register || self is Serve || self is CloseUnanswered
            || self is CloseUnregistered
    }

    /// Whether the connection is closed at this stage, or found to be.
    pub open spec fn closes(self) -> bool {
        self is Serve || self is CloseUnanswered || self is CloseUnregistered
    }

    /// The stage after one that went well or not.
    pub open spec fn after(self, ok: bool) -> Self {
        match self {
            Link::Pause => Link::Connect,
            Link::Connect => if ok {
                Link::AskLimiter
            } else {
                Link::Rest
            },
            Link::AskLimiter => if ok {
                Link::Register
            } else {
                Link::CloseUnanswered
            },
            Link::Register => if ok {
                Link::Serve
            } else {
                Link::CloseUnregistered
            },
            Link::Serve => Link::Rest,
            Link::CloseUnanswered => Link::Pause,
            Link::CloseUnregistered => Link::Rest,
            Link::Rest => Link::Pause,
        }
    }

    /// After a number of stages that went well or not.
    pub open spec fn after_all(self, oks: Seq<bool>) -> Self
        decreases oks.len(),
    {
        if oks.len() == 0 {
            self
        } else {
            self.after_all(oks.drop_last()).after(oks.last())
        }
    }

    /// The first stage.
    pub fn new() -> (l: Self)
        ensures
            l == Link::Pause,
    {
        Link::Pause
    }

    /// The stage after one that went well or not.
    pub fn step(self, ok: bool) -> (l: Self)
        ensures
            l == self.after(ok),
    {
        match self {
            Link::Pause => Link::Connect,
            Link::Connect => if ok {
                Link::AskLimiter
            } else {
                Link::Rest
            },
            Link::AskLimiter => if ok {
                Link::Register
            } else {
                Link::CloseUnanswered
            },
            Link::Register => if ok {
                Link::Serve
            } else {
                Link::CloseUnregistered
            },
            Link::Serve => Link::Rest,
            Link::CloseUnanswered => Link::Pause,
            Link::CloseUnregistered => Link::Rest,
            Link::Rest => Link::Pause,
        }
    }
}

/// A connection is opened by connecting alone, and is closed before the next try.
pub proof fn law_link_is_closed_before_the_next_try(link: Link, ok: bool)
    ensures
        link.after(ok).is_open() && !link.is_open() ==> link is Connect && ok,
        link.is_open() && !link.after(ok).is_open() ==> link.closes(),
        link.after(ok) is Connect ==> !link.is_open(),
{
}

/// Whatever goes wrong, the server is tried again, after six stages at most.
pub proof fn law_server_is_tried_again(link: Link, oks: Seq<bool>)
    requires
        oks.len() >= 6,
    ensures
        exists|k: int| 1 <= k <= 6 && #[trigger] link.after_all(oks.take(k)) is Connect,
{
    reveal_with_fuel(Link::after_all, 7);
    let s1 = oks.take(1);
    let s2 = oks.take(2);
    let s3 = oks.take(3);
    let s4 = oks.take(4);
    let s5 = oks.take(5);
    let s6 = oks.take(6);
    assert(s1.drop_last() =~= Seq::<bool>::empty());
    assert(s2.drop_last() =~= s1);
    assert(s3.drop_last() =~= s2);
    assert(s4.drop_last() =~= s3);
    assert(s5.drop_last() =~= s4);
    assert(s6.drop_last() =~= s5);
    assert(link.after_all(s1) is Connect || link.after_all(s2) is Connect || link.after_all(
        s3,
    ) is Connect || link.after_all(s4) is Connect || link.after_all(s5) is Connect
        || link.after_all(s6) is Connect);
}

/// One text occurs in another if some stretch of the other is that text.
pub proof fn law_occurring_text_is_a_stretch(front: Seq<char>, needle: Seq<char>, back: Seq<char>)
    ensures
        occurs(needle, front + needle + back),
{
    let at = front.len() as int;
    assert((front + needle + back).subrange(at, at + needle.len()) =~= needle);
}

/// A text that occurs in another stands there letter by letter.
pub proof fn law_occurring_text_stands_letter_by_letter(
    needle: Seq<char>,
    haystack: Seq<char>,
) -> (at: int)
    requires
        occurs(needle, haystack),
    ensures
        0 <= at,
        at + needle.len() <= haystack.len(),
        forall|k: int| 0 <= k < needle.len() ==> #[trigger] needle[k] == haystack[at + k],
{
    let at = choose|at: int|
        0 <= at && at + needle.len() <= haystack.len() && #[trigger] haystack.subrange(
            at,
            at + needle.len(),
        ) == needle;
    assert forall|k: int| 0 <= k < needle.len() implies #[trigger] needle[k] == haystack[at + k] by {
        assert(haystack.subrange(at, at + needle.len())[k] == haystack[at + k]);
    }
    at
}

/// The socket of a process is named after its number.
pub proof fn law_socket_is_named_after_the_process(pid: u32)
    ensures
        socket_of(pid).take(9) == "mangohud-"@,
        crate::decimal::value_of(socket_of(pid).skip(9)) == pid,
        socket_of(pid).len() > 9,
{
    reveal_strlit("mangohud-");
    crate::decimal::law_text_stands_for_the_number(pid as nat);
    assert(socket_of(pid).take(9) =~= "mangohud-"@);
    assert(socket_of(pid).skip(9) =~= crate::decimal::decimal(pid as nat));
}

/// With a child its socket is chosen if and only if it is listed behind an `@`, whatever else
/// was found; without one what was found is chosen.
pub proof fn law_socket_of_the_child_is_chosen(
    data: Seq<char>,
    pid: u32,
    found: Option<Seq<char>>,
)
    ensures
        chosen_socket(data, None, found) == found,
        occurs(seq!['@'] + socket_of(pid), data) ==> chosen_socket(data, Some(pid), found) == Some(
            socket_of(pid),
        ),
        !occurs(seq!['@'] + socket_of(pid), data) ==> chosen_socket(data, Some(pid), found) is None,
{
}

/// What is passed on is the limit rounded to the nearest frame, or the bound that it
/// exceeds.
pub proof fn law_limit_is_rounded_and_bounded(halves: int, min_fps: u16, max_fps: u16)
    requires
        0 <= halves,
        min_fps <= max_fps,
    ensures
        halves + 1 < 2 * min_fps ==> target(halves, min_fps, max_fps) == min_fps,
        halves > 2 * max_fps ==> target(halves, min_fps, max_fps) == max_fps,
        2 * min_fps <= halves <= 2 * max_fps ==> 2 * target(halves, min_fps, max_fps) == halves || 2
            * target(halves, min_fps, max_fps) == halves + 1,
        min_fps <= target(halves, min_fps, max_fps) <= max_fps,
{
}

/// What is written to MangoHud sets its limit to the number.
pub proof fn law_command_sets_the_limit(fps: u16)
    ensures
        ({
            let text = fps_command(fps);
            let n = text.len() as int;
            &&& n > 17
            &&& text.take(15) == ":set_fps_limit="@
            &&& text.skip(n - 2) == ";\n"@
            &&& crate::decimal::value_of(text.subrange(15, n - 2)) == fps
            &&& forall|i: int| 15 <= i < n - 2 ==> '0' <= #[trigger] text[i] <= '9'
        }),
{
    reveal_strlit(":set_fps_limit=");
    reveal_strlit(";\n");
    crate::decimal::law_text_stands_for_the_number(fps as nat);
    let digits = crate::decimal::decimal(fps as nat);
    let text = fps_command(fps);
    let n = text.len() as int;
    assert(text.take(15) =~= ":set_fps_limit="@);
    assert(text.skip(n - 2) =~= ";\n"@);
    assert(text.subrange(15, n - 2) =~= digits);
    assert forall|i: int| 15 <= i < n - 2 implies '0' <= #[trigger] text[i] <= '9' by {
        assert(text[i] == digits[i - 15]);
    }
}

/// What a round of the search comes to: gamescope where it can be had; else MangoHud where it
/// can be had; else nothing without a child; else the time has run out, or the child has
/// ended, or there is another round.
pub proof fn law_round_of_the_search(
    gamescope: bool,
    mangohud: bool,
    child: bool,
    late: bool,
    ended: bool,
)
    ensures
        Search::AskGamescope.after(gamescope).after(mangohud).after(child).after(late).after(ended)
            == if gamescope {
            Search::UseGamescope
        } else if mangohud {
            Search::UseMangoHud
        } else if !child {
            Search::NoBackend
        } else if late {
            Search::TimedOut
        } else if ended {
            Search::ChildExited
        } else {
            Search::AskGamescope
        },
        Search::AskGamescope.after(false) == Search::AskMangoHud,
        Search::AskMangoHud.after(false) == Search::AskChild,
        Search::AskChild.after(true) == Search::AskDeadline,
        Search::AskDeadline.after(false) == Search::AskExit,
{
}

/// A search that is over stays over.
pub proof fn law_search_that_is_over_stays_over(s: Search, yes: bool)
    requires
        s is UseGamescope || s is UseMangoHud || s is NoBackend || s is TimedOut || s is ChildExited,
    ensures
        s.after(yes) == s,
{
}

/// What a try to connect comes to: limits are passed on where it goes well; what was opened
/// is closed where it does not; and then there is a wait before the next try.
pub proof fn law_try_to_connect(connected: bool, answered: bool, registered: bool)
    ensures
        Link::Pause.after(true) == Link::Connect,
        Link::Pause.after(false) == Link::Connect,
        Link::Connect.after(connected) == if connected {
            Link::AskLimiter
        } else {
            Link::Rest
        },
        Link::AskLimiter.after(answered) == if answered {
            Link::Register
        } else {
            Link::CloseUnanswered
        },
        Link::Register.after(registered) == if registered {
            Link::Serve
        } else {
            Link::CloseUnregistered
        },
        forall|ok: bool| #[trigger] Link::Serve.after(ok) == Link::Rest,
        forall|ok: bool| #[trigger] Link::CloseUnanswered.after(ok) == Link::Pause,
        forall|ok: bool| #[trigger] Link::CloseUnregistered.after(ok) == Link::Rest,
        forall|ok: bool| #[trigger] Link::Rest.after(ok) == Link::Pause,
{
}

} // verus!
