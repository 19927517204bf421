//! The decisions of the interactive mode: what a line typed at the prompt
//! asks for.

use vstd::prelude::*;
use vstd::string::StrSliceExecFns;
use crate::text::starts_with;
use crate::outside::{shell_split, split_words};

verus! {

/// Whether `c` has Unicode's White_Space property, as `char::is_whitespace`
/// tests it.
pub open spec fn white_space(c: char) -> bool {
    let n = c as u32;
    ||| 0x9 <= n <= 0xd
    ||| n == 0x20
    ||| n == 0x85
    ||| n == 0xa0
    ||| n == 0x1680
    ||| 0x2000 <= n <= 0x200a
    ||| n == 0x2028
    ||| n == 0x2029
    ||| n == 0x202f
    ||| n == 0x205f
    ||| n == 0x3000
}

/// `s` without the white space at its start.
pub open spec fn trim_start_spec(s: Seq<char>) -> Seq<char>
    decreases s.len(),
{
    if s.len() > 0 && white_space(s[0]) {
        trim_start_spec(s.drop_first())
    } else {
        s
    }
}

/// `s` without the white space at its end.
pub open spec fn trim_end_spec(s: Seq<char>) -> Seq<char>
    decreases s.len(),
{
    if s.len() > 0 && white_space(s.last()) {
        trim_end_spec(s.drop_last())
    } else {
        s
    }
}

/// `s` without the white space at either end, as `str::trim` gives it.
pub open spec fn trim_spec(s: Seq<char>) -> Seq<char> {
    trim_end_spec(trim_start_spec(s))
}

/// Whether a character is white space.
pub fn is_white_space(c: char) -> (r: bool)
    ensures
        r == white_space(c),
{
    let n = c as u32;
    (0x9 <= n && n <= 0xd) || n == 0x20 || n == 0x85 || n == 0xa0 || n == 0x1680 || (0x2000 <= n && n <= 0x200a)
        || n == 0x2028 || n == 0x2029 || n == 0x202f || n == 0x205f || n == 0x3000
}

proof fn lemma_trim_start(s: Seq<char>, a: int)
    requires
        0 <= a <= s.len(),
        forall|j: int| 0 <= j < a ==> white_space(#[trigger] s[j]),
        a == s.len() || !white_space(s[a]),
    ensures
        trim_start_spec(s) == s.subrange(a, s.len() as int),
    decreases a,
{
    if a == 0 {
        assert(s.subrange(0, s.len() as int) =~= s);
    } else {
        let t = s.drop_first();
        assert forall|j: int| 0 <= j < a - 1 implies white_space(#[trigger] t[j]) by {
            assert(t[j] == s[j + 1]);
        }
        if a - 1 < t.len() {
            assert(t[a - 1] == s[a]);
        }
        assert(white_space(s[0]));
        lemma_trim_start(t, a - 1);
        assert(t.subrange(a - 1, t.len() as int) =~= s.subrange(a, s.len() as int));
    }
}

proof fn lemma_trim_end(s: Seq<char>, b: int)
    requires
        0 <= b <= s.len(),
        forall|j: int| b <= j < s.len() ==> white_space(#[trigger] s[j]),
        b == 0 || !white_space(s[b - 1]),
    ensures
        trim_end_spec(s) == s.subrange(0, b),
    decreases s.len() - b,
{
    if b == s.len() {
        assert(s.subrange(0, b) =~= s);
    } else {
        let t = s.drop_last();
        assert forall|j: int| b <= j < t.len() implies white_space(#[trigger] t[j]) by {
            assert(t[j] == s[j]);
        }
        if b > 0 {
            assert(t[b - 1] == s[b - 1]);
        }
        assert(white_space(s[s.len() - 1]));
        lemma_trim_end(t, b);
        assert(t.subrange(0, b) =~= s.subrange(0, b));
    }
}

/// The line without white space at either end.
pub fn trim_text(s: &str) -> (r: &str)
    ensures
        r@ == trim_spec(s@),
{
    let n = s.unicode_len();
    let mut a: usize = 0;
    while a < n
        invariant
            n == s@.len(),
            a <= n,
            forall|j: int| 0 <= j < a ==> white_space(#[trigger] s@[j]),
        ensures
            a <= n,
            forall|j: int| 0 <= j < a ==> white_space(#[trigger] s@[j]),
            a == n || !white_space(s@[a as int]),
        decreases n - a,
    {
        if !is_white_space(s.get_char(a)) {
            break;
        }
        a += 1;
    }
    let mut b: usize = n;
    while b > a
        invariant
            n == s@.len(),
            a <= b <= n,
            forall|j: int| b <= j < n ==> white_space(#[trigger] s@[j]),
        ensures
            a <= b <= n,
            forall|j: int| b <= j < n ==> white_space(#[trigger] s@[j]),
            b == a || !white_space(s@[b - 1]),
        decreases b - a,
    {
        if !is_white_space(s.get_char(b - 1)) {
            break;
        }
        b -= 1;
    }
    proof {
        lemma_trim_start(s@, a as int);
        let t = s@.subrange(a as int, n as int);
        assert forall|j: int| b - a <= j < t.len() implies white_space(#[trigger] t[j]) by {
            assert(t[j] == s@[j + a]);
        }
        if b > a {
            assert(t[b - a - 1] == s@[b - 1]);
        }
        lemma_trim_end(t, b - a);
        assert(t.subrange(0, b - a) =~= s@.subrange(a as int, b as int));
    }
    s.substring_char(a, b)
}

/// Whether two texts are the same.
pub fn same_text(a: &str, b: &str) -> (r: bool)
    ensures
        r == (a@ == b@),
{
    if a.unicode_len() != b.unicode_len() {
        return false;
    }
    let r = starts_with(a, b);
    proof {
        assert(a@.subrange(0, b@.len() as int) =~= a@);
    }
    r
}

/// What a line typed at the prompt asks for.
pub enum SessionStep {
    /// Nothing was typed: prompt again.
    Skip,
    /// Leave the session.
    Quit,
    /// Show the commands.
    Help,
    /// Clear the screen.
    Clear,
    /// Run a command given by its words.
    Run(Vec<String>),
    /// The line has an unclosed quote.
    BadQuoting,
}

/// What trimmed line `t` asks for, given the words the shell finds in it.
pub open spec fn session_step_spec(t: Seq<char>, r: SessionStep) -> bool {
    if t.len() == 0 {
        r is Skip
    } else if t == "quit"@ || t == "exit"@ || t == "q"@ {
        r is Quit
    } else if t == "help"@ || t == "h"@ {
        r is Help
    } else if t == "clear"@ {
        r is Clear
    } else {
        match shell_split(t) {
            Some(ws) => r matches SessionStep::Run(v) && v@.map_values(|w: String| w@) == ws,
            None => r is BadQuoting,
        }
    }
}

/// What a line typed at the prompt asks for: with the white space at its
/// ends removed, an empty line is skipped, "quit", "exit" or "q" ends the
/// session, "help" or "h" shows the commands, "clear" clears the screen,
/// and anything else is a command whose words the shell finds in it, or a
/// line with an unclosed quote.
pub fn session_step(line: &str) -> (r: SessionStep)
    ensures
        session_step_spec(trim_spec(line@), r),
{
    let t = trim_text(line);
    if t.unicode_len() == 0 {
        SessionStep::Skip
    } else if same_text(t, "quit") || same_text(t, "exit") || same_text(t, "q") {
        SessionStep::Quit
    } else if same_text(t, "help") || same_text(t, "h") {
        SessionStep::Help
    } else if same_text(t, "clear") {
        SessionStep::Clear
    } else {
        match split_words(t) {
            Some(words) => SessionStep::Run(words),
            None => SessionStep::BadQuoting,
        }
    }
}

} // verus!
