use crate::text::string_of;
use vstd::prelude::*;
use vstd::string::{StrSliceExecFns, StringExecFns};

verus! {

broadcast use {vstd::string::group_string_axioms, vstd::seq_lib::group_seq_properties, vstd::seq::group_seq_axioms};

// ---------------------------------------------------------------------------------------------
// Words of a command line
// ---------------------------------------------------------------------------------------------

/// Unicode white space (the characters `char::is_whitespace` accepts).
pub open spec fn is_space(c: char) -> bool {
    ||| c == '\t' || c == '\n' || c == '\u{0B}' || c == '\u{0C}' || c == '\r' || c == ' '
    ||| c == '\u{85}' || c == '\u{A0}' || c == '\u{1680}'
    ||| ('\u{2000}' as int <= c as int <= '\u{200A}' as int)
    ||| c == '\u{2028}' || c == '\u{2029}' || c == '\u{202F}' || c == '\u{205F}' || c == '\u{3000}'
}

fn space(c: char) -> (b: bool)
    ensures
        b == is_space(c),
{
    c == '\t' || c == '\n' || c == '\u{0B}' || c == '\u{0C}' || c == '\r' || c == ' ' || c == '\u{85}' || c == '\u{A0}'
        || c == '\u{1680}' || ('\u{2000}' <= c && c <= '\u{200A}') || c == '\u{2028}' || c == '\u{2029}' || c
        == '\u{202F}' || c == '\u{205F}' || c == '\u{3000}'
}

/// The words of `s`: its maximal runs of characters other than white space, in order.
pub open spec fn words(s: Seq<char>) -> Seq<Seq<char>>
    decreases s.len(),
{
    if s.len() == 0 {
        Seq::empty()
    } else {
        let w = words(s.drop_last());
        let c = s.last();
        if is_space(c) {
            w
        } else if s.len() >= 2 && !is_space(s[s.len() - 2]) {
            w.update(w.len() - 1, w.last().push(c))
        } else {
            w.push(seq![c])
        }
    }
}

proof fn lemma_words_last(s: Seq<char>)
    requires
        s.len() > 0,
        !is_space(s.last()),
    ensures
        words(s).len() > 0,
    decreases s.len(),
{
    if s.len() >= 2 && !is_space(s[s.len() - 2]) {
        let p = s.drop_last();
        assert(p.last() == s[s.len() - 2]);
        lemma_words_last(p);
    }
}

/// The words of `s` (see `words`).
pub fn split_words(s: &str) -> (r: Vec<String>)
    ensures
        r@.map_values(|x: String| x@) == words(s@),
{
    let n = s.unicode_len();
    let mut out: Vec<String> = Vec::new();
    let mut in_word = false;
    for i in 0..n
        invariant
            n == s@.len(),
            out@.map_values(|x: String| x@) == words(s@.take(i as int)),
            in_word == (i > 0 && !is_space(s@[i - 1])),
    {
        let c = s.get_char(i);
        let ghost pre = s@.take(i as int);
        proof {
            assert(s@.take(i + 1).drop_last() =~= pre);
            assert(s@.take(i + 1).last() == c);
        }
        if space(c) {
            in_word = false;
        } else if in_word {
            let ghost ov = out@.map_values(|x: String| x@);
            proof {
                assert(s@.take(i + 1)[i - 1] == s@[i - 1]);
                assert(pre.last() == s@[i - 1]);
                lemma_words_last(pre);
            }
            let last = out.len() - 1;
            let mut w = out[last].clone();
            w.append(s.substring_char(i, i + 1));
            proof {
                assert(s@.subrange(i as int, i + 1) =~= seq![c]);
                assert(ov[last as int] == out@[last as int]@);
                assert(w@ =~= ov.last().push(c));
            }
            out.set(last, w);
            proof {
                assert(out@.map_values(|x: String| x@) =~= ov.update(ov.len() - 1, ov.last().push(c)));
            }
            in_word = true;
        } else {
            let ghost ov = out@.map_values(|x: String| x@);
            let w = string_of(s.substring_char(i, i + 1));
            out.push(w);
            proof {
                assert(s@.subrange(i as int, i + 1) =~= seq![c]);
                assert(out@.map_values(|x: String| x@) =~= ov.push(seq![c]));
                if i >= 1 {
                    assert(s@.take(i + 1)[i - 1] == s@[i - 1]);
                }
            }
            in_word = true;
        }
    }
    proof {
        assert(s@.take(n as int) =~= s@);
    }
    out
}

// ---------------------------------------------------------------------------------------------
// Numbers
// ---------------------------------------------------------------------------------------------

pub open spec fn is_digit(c: char) -> bool {
    '0' <= c <= '9'
}

/// The value of a run of decimal digits.
pub open spec fn digits_value(d: Seq<char>) -> nat
    decreases d.len(),
{
    if d.len() == 0 {
        0
    } else {
        digits_value(d.drop_last()) * 10 + (d.last() as nat - '0' as nat) as nat
    }
}

/// The digits of an unsigned number word: the word without a leading `+`.
pub open spec fn unsigned_digits(t: Seq<char>) -> Seq<char> {
    if t.len() > 0 && t[0] == '+' {
        t.drop_first()
    } else {
        t
    }
}

/// The value of an unsigned number word no larger than `max`, as Rust's integer parsing
/// reads it: an optional `+`, then one or more decimal digits.
pub open spec fn unsigned_value(t: Seq<char>, max: nat) -> Option<nat> {
    let d = unsigned_digits(t);
    if d.len() > 0 && (forall|i: int| 0 <= i < d.len() ==> is_digit(#[trigger] d[i])) && digits_value(d) <= max {
        Some(digits_value(d))
    } else {
        None
    }
}

/// `v`, or `cap` when `v` reaches it.
pub open spec fn capped(v: nat, cap: nat) -> nat {
    if v < cap {
        v
    } else {
        cap
    }
}

proof fn lemma_capped_step(v: nat, cap: nat, dv: nat)
    requires
        dv < 10,
        cap > 0,
    ensures
        capped(v * 10 + dv, cap) == capped(capped(v, cap) * 10 + dv, cap),
{
    if v >= cap {
        assert(v * 10 + dv >= cap) by (nonlinear_arith)
            requires
                v >= cap,
        ;
        assert(cap * 10 + dv >= cap) by (nonlinear_arith)
            requires
                cap > 0,
        ;
    }
}

/// Read an unsigned number word no larger than `max` (see `unsigned_value`).
fn parse_unsigned(t: &str, max: u64) -> (r: Option<u64>)
    ensures
        match unsigned_value(t@, max as nat) {
            Some(v) => r == Some(v as u64),
            None => r is None,
        },
{
    let cs = crate::text::chars_of(t);
    let n = cs.len();
    let start: usize = if n > 0 && cs[0] == '+' { 1 } else { 0 };
    let ghost d = unsigned_digits(t@);
    proof {
        assert(d =~= cs@.subrange(start as int, n as int));
    }
    if start >= n {
        return None;
    }
    let cap: u128 = max as u128 + 1;
    let mut acc: u128 = 0;
    let mut i = start;
    while i < n
        invariant
            start <= i <= n,
            n == cs@.len(),
            d == cs@.subrange(start as int, n as int),
            d == unsigned_digits(t@),
            cap == max + 1,
            forall|k: int| 0 <= k < i - start ==> is_digit(#[trigger] d[k]),
            acc == capped(digits_value(d.take(i - start)), cap as nat),
        decreases n - i,
    {
        let c = cs[i];
        proof {
            assert(d[i - start] == c);
        }
        if !('0' <= c && c <= '9') {
            proof {
                assert(!is_digit(d[i - start]));
            }
            return None;
        }
        let dv = (c as u32 - '0' as u32) as u128;
        proof {
            let k = (i - start) as int;
            assert(d.take(k + 1).drop_last() =~= d.take(k));
            assert(d.take(k + 1).last() == c);
            lemma_capped_step(digits_value(d.take(k)), cap as nat, dv as nat);
        }
        let next = acc * 10 + dv;
        acc = if next < cap { next } else { cap };
        i = i + 1;
    }
    proof {
        assert(d.take(n - start) =~= d);
        assert(forall|k: int| 0 <= k < d.len() ==> is_digit(#[trigger] d[k]));
    }
    if acc < cap {
        Some(acc as u64)
    } else {
        None
    }
}

/// Read a `u32` word (see `unsigned_value`).
pub fn parse_u32(t: &str) -> (r: Option<u32>)
    ensures
        match unsigned_value(t@, u32::MAX as nat) {
            Some(v) => r == Some(v as u32),
            None => r is None,
        },
{
    match parse_unsigned(t, 4294967295) {
        Some(v) => Some(v as u32),
        None => None,
    }
}

/// Read a `usize` word (see `unsigned_value`).
pub fn parse_usize(t: &str) -> (r: Option<usize>)
    ensures
        match unsigned_value(t@, usize::MAX as nat) {
            Some(v) => r == Some(v as usize),
            None => r is None,
        },
{
    match parse_unsigned(t, usize::MAX as u64) {
        Some(v) => Some(v as usize),
        None => None,
    }
}

// ---------------------------------------------------------------------------------------------
// Console commands
// ---------------------------------------------------------------------------------------------

/// A console command, read from one line: `why <pid>`, `show graph <pid> [depth]`,
/// `show findings [n]`, `show timeline pid <pid>`, `diff yesterday`, `kill <pid>`,
/// `suspend <pid>`, `resume <pid>`, `export <path>`, `quit` or `exit`. A line that asks
/// nothing runnable gets a reply to print; an empty line gets nothing.
pub enum Command {
    Nothing,
    Reply(String),
    Why(u32),
    ShowGraph(u32, Option<usize>),
    ShowFindings(usize),
    ShowTimeline(u32),
    DiffYesterday,
    Kill(u32),
    Suspend(u32),
    Resume(u32),
    Export(String),
    Quit,
}

pub enum CommandView {
    Nothing,
    Reply(Seq<char>),
    Why(u32),
    ShowGraph(u32, Option<usize>),
    ShowFindings(usize),
    ShowTimeline(u32),
    DiffYesterday,
    Kill(u32),
    Suspend(u32),
    Resume(u32),
    Export(Seq<char>),
    Quit,
}

impl View for Command {
    type V = CommandView;

    open spec fn view(&self) -> CommandView {
        match self {
            Command::Nothing => CommandView::Nothing,
            Command::Reply(m) => CommandView::Reply(m@),
            Command::Why(p) => CommandView::Why(*p),
            Command::ShowGraph(p, d) => CommandView::ShowGraph(*p, *d),
            Command::ShowFindings(n) => CommandView::ShowFindings(*n),
            Command::ShowTimeline(p) => CommandView::ShowTimeline(*p),
            Command::DiffYesterday => CommandView::DiffYesterday,
            Command::Kill(p) => CommandView::Kill(*p),
            Command::Suspend(p) => CommandView::Suspend(*p),
            Command::Resume(p) => CommandView::Resume(*p),
            Command::Export(path) => CommandView::Export(path@),
            Command::Quit => CommandView::Quit,
        }
    }
}

/// The pid word `t`: the command when it reads as a `u32`, else the invalid-pid reply.
pub open spec fn with_pid(t: Seq<char>, f: spec_fn(u32) -> CommandView) -> CommandView {
    match unsigned_value(t, u32::MAX as nat) {
        Some(v) => f(v as u32),
        None => CommandView::Reply("Invalid pid: "@ + t),
    }
}

/// Pids up to 4 belong to the system and are not killed or suspended.
pub open spec fn guarded(verb: Seq<char>, pid: u32, c: CommandView) -> CommandView {
    if pid <= 4 {
        CommandView::Reply("Refusing to "@ + verb + " reserved/system pid "@ + crate::text::decimal(pid as nat))
    } else {
        c
    }
}

/// The command that the words `w` of a line ask for.
pub open spec fn command_of(w: Seq<Seq<char>>) -> CommandView {
    if w.len() == 0 {
        CommandView::Nothing
    } else {
        let c = w[0];
        if c == "why"@ {
            if w.len() < 2 {
                CommandView::Reply("Usage: why <pid>"@)
            } else {
                with_pid(w[1], |p: u32| CommandView::Why(p))
            }
        } else if c == "show"@ {
            if w.len() < 2 {
                CommandView::Reply("Usage: show <graph|findings|timeline>"@)
            } else if w[1] == "graph"@ {
                if w.len() < 3 {
                    CommandView::Reply("Usage: show graph <pid>"@)
                } else {
                    with_pid(
                        w[2],
                        |p: u32|
                            if w.len() < 4 {
                                CommandView::ShowGraph(p, None)
                            } else {
                                match unsigned_value(w[3], usize::MAX as nat) {
                                    Some(d) => CommandView::ShowGraph(p, Some(d as usize)),
                                    None => CommandView::Reply("Invalid depth: "@ + w[3]),
                                }
                            },
                    )
                }
            } else if w[1] == "findings"@ {
                if w.len() < 3 {
                    CommandView::ShowFindings(10)
                } else {
                    match unsigned_value(w[2], usize::MAX as nat) {
                        Some(n) => CommandView::ShowFindings(n as usize),
                        None => CommandView::Reply("Invalid number: "@ + w[2]),
                    }
                }
            } else if w[1] == "timeline"@ {
                if w.len() < 3 {
                    CommandView::Reply("Usage: show timeline pid <pid>"@)
                } else if w[2] != "pid"@ {
                    CommandView::Reply("Unknown timeline arg: "@ + w[2])
                } else if w.len() < 4 {
                    CommandView::Reply("Usage: show timeline pid <pid>"@)
                } else {
                    with_pid(w[3], |p: u32| CommandView::ShowTimeline(p))
                }
            } else {
                CommandView::Reply("Unknown show subcommand: "@ + w[1])
            }
        } else if c == "diff"@ {
            if w.len() < 2 {
                CommandView::Reply("Usage: diff yesterday"@)
            } else if w[1] == "yesterday"@ {
                CommandView::DiffYesterday
            } else {
                CommandView::Reply("Unknown diff target: "@ + w[1])
            }
        } else if c == "kill"@ {
            if w.len() < 2 {
                CommandView::Reply("Usage: kill <pid>"@)
            } else {
                with_pid(w[1], |p: u32| guarded("kill"@, p, CommandView::Kill(p)))
            }
        } else if c == "suspend"@ {
            if w.len() < 2 {
                CommandView::Reply("Usage: suspend <pid>"@)
            } else {
                with_pid(w[1], |p: u32| guarded("suspend"@, p, CommandView::Suspend(p)))
            }
        } else if c == "resume"@ {
            if w.len() < 2 {
                CommandView::Reply("Usage: resume <pid>"@)
            } else {
                with_pid(w[1], |p: u32| CommandView::Resume(p))
            }
        } else if c == "export"@ {
            if w.len() < 2 {
                CommandView::Reply("Usage: export <path>"@)
            } else {
                CommandView::Export(w[1])
            }
        } else if c == "quit"@ || c == "exit"@ {
            CommandView::Quit
        } else {
            CommandView::Reply("Unknown command: "@ + c)
        }
    }
}

fn is_word(w: &String, lit: &str) -> (b: bool)
    ensures
        b == (w@ == lit@),
{
    *w == string_of(lit)
}

fn reply(prefix: &str, w: &String) -> (c: Command)
    ensures
        c@ == CommandView::Reply(prefix@ + w@),
{
    let mut m = string_of(prefix);
    m.append(w.as_str());
    Command::Reply(m)
}

fn pid_or_reply(w: &String) -> (r: Result<u32, Command>)
    ensures
        match unsigned_value(w@, u32::MAX as nat) {
            Some(v) => r == Ok::<u32, Command>(v as u32),
            None => r matches Err(c) && c@ == CommandView::Reply("Invalid pid: "@ + w@),
        },
{
    match parse_u32(w.as_str()) {
        Some(p) => Ok(p),
        None => Err(reply("Invalid pid: ", w)),
    }
}

fn guard_reserved(verb: &str, pid: u32, c: Command) -> (r: Command)
    ensures
        r@ == guarded(verb@, pid, c@),
{
    if pid <= 4 {
        let mut m = string_of("Refusing to ");
        m.append(verb);
        m.append(" reserved/system pid ");
        crate::text::push_decimal(&mut m, pid as u128);
        Command::Reply(m)
    } else {
        c
    }
}

fn parse_show(w: &Vec<String>) -> (c: Command)
    requires
        w@.len() >= 1,
        w@[0]@ == "show"@,
    ensures
        c@ == command_of(w@.map_values(|x: String| x@)),
{
    let ghost wv = w@.map_values(|x: String| x@);
    proof {
        assert(wv[0] == "show"@);
        reveal_strlit("show");
        reveal_strlit("why");
        assert("show"@ != "why"@) by {
            assert("show"@[0] != "why"@[0]);
        }
    }
    if w.len() < 2 {
        return Command::Reply(string_of("Usage: show <graph|findings|timeline>"));
    }
    proof {
        assert(wv[1] == w@[1]@);
    }
    if is_word(&w[1], "graph") {
        if w.len() < 3 {
            return Command::Reply(string_of("Usage: show graph <pid>"));
        }
        proof {
            assert(wv[2] == w@[2]@);
        }
        match pid_or_reply(&w[2]) {
            Err(c) => c,
            Ok(p) => {
                if w.len() < 4 {
                    Command::ShowGraph(p, None)
                } else {
                    proof {
                        assert(wv[3] == w@[3]@);
                    }
                    match parse_usize(w[3].as_str()) {
                        Some(d) => Command::ShowGraph(p, Some(d)),
                        None => reply("Invalid depth: ", &w[3]),
                    }
                }
            },
        }
    } else if is_word(&w[1], "findings") {
        if w.len() < 3 {
            Command::ShowFindings(10)
        } else {
            proof {
                assert(wv[2] == w@[2]@);
            }
            match parse_usize(w[2].as_str()) {
                Some(n) => Command::ShowFindings(n),
                None => reply("Invalid number: ", &w[2]),
            }
        }
    } else if is_word(&w[1], "timeline") {
        if w.len() < 3 {
            return Command::Reply(string_of("Usage: show timeline pid <pid>"));
        }
        proof {
            assert(wv[2] == w@[2]@);
        }
        if !is_word(&w[2], "pid") {
            return reply("Unknown timeline arg: ", &w[2]);
        }
        if w.len() < 4 {
            return Command::Reply(string_of("Usage: show timeline pid <pid>"));
        }
        proof {
            assert(wv[3] == w@[3]@);
        }
        match pid_or_reply(&w[3]) {
            Err(c) => c,
            Ok(p) => Command::ShowTimeline(p),
        }
    } else {
        reply("Unknown show subcommand: ", &w[1])
    }
}

/// The command a console line asks for (see `command_of`).
pub fn parse_command(line: &str) -> (c: Command)
    ensures
        c@ == command_of(words(line@)),
{
    let w = split_words(line);
    let ghost wv = w@.map_values(|x: String| x@);
    if w.len() == 0 {
        return Command::Nothing;
    }
    proof {
        assert(wv[0] == w@[0]@);
        if w@.len() >= 2 {
            assert(wv[1] == w@[1]@);
        }
    }
    let head = &w[0];
    if is_word(head, "why") {
        if w.len() < 2 {
            Command::Reply(string_of("Usage: why <pid>"))
        } else {
            match pid_or_reply(&w[1]) {
                Err(c) => c,
                Ok(p) => Command::Why(p),
            }
        }
    } else if is_word(head, "show") {
        parse_show(&w)
    } else if is_word(head, "diff") {
        if w.len() < 2 {
            Command::Reply(string_of("Usage: diff yesterday"))
        } else if is_word(&w[1], "yesterday") {
            Command::DiffYesterday
        } else {
            reply("Unknown diff target: ", &w[1])
        }
    } else if is_word(head, "kill") {
        if w.len() < 2 {
            Command::Reply(string_of("Usage: kill <pid>"))
        } else {
            match pid_or_reply(&w[1]) {
                Err(c) => c,
                Ok(p) => guard_reserved("kill", p, Command::Kill(p)),
            }
        }
    } else if is_word(head, "suspend") {
        if w.len() < 2 {
            Command::Reply(string_of("Usage: suspend <pid>"))
        } else {
            match pid_or_reply(&w[1]) {
                Err(c) => c,
                Ok(p) => guard_reserved("suspend", p, Command::Suspend(p)),
            }
        }
    } else if is_word(head, "resume") {
        if w.len() < 2 {
            Command::Reply(string_of("Usage: resume <pid>"))
        } else {
            match pid_or_reply(&w[1]) {
                Err(c) => c,
                Ok(p) => Command::Resume(p),
            }
        }
    } else if is_word(head, "export") {
        if w.len() < 2 {
            Command::Reply(string_of("Usage: export <path>"))
        } else {
            Command::Export(w[1].clone())
        }
    } else if is_word(head, "quit") || is_word(head, "exit") {
        Command::Quit
    } else {
        reply("Unknown command: ", head)
    }
}

/// Whether a confirmation line answers yes: `yes`, with nothing else but white space.
pub fn is_confirmation(line: &str) -> (b: bool)
    ensures
        b == (words(line@) == seq!["yes"@]),
{
    let w = split_words(line);
    let ghost wv = w@.map_values(|x: String| x@);
    proof {
        if w@.len() == 1 {
            assert(wv[0] == w@[0]@);
        }
    }
    let b = w.len() == 1 && is_word(&w[0], "yes");
    proof {
        if b {
            assert(wv =~= seq!["yes"@]);
        }
        if wv == seq!["yes"@] {
            assert(wv.len() == 1);
            assert(wv[0] == "yes"@);
        }
    }
    b
}

/// Law: a console command never kills or suspends a reserved system pid (0 to 4).
pub proof fn law_reserved_pids_spared(w: Seq<Seq<char>>)
    ensures
        command_of(w) matches CommandView::Kill(p) ==> p > 4,
        command_of(w) matches CommandView::Suspend(p) ==> p > 4,
{
}

} // verus!
