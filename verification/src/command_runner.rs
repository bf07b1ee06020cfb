//! Terminal support: the command line is tokenized shell-style, leading
//! `KEY=VALUE` tokens become environment overrides for the child, the
//! captured output is capped to a head and a tail of lines, and a small
//! de-duplicated most-recent-first history is kept. Spawning, waiting and
//! killing the child are the caller's work.

use vstd::prelude::*;
use crate::strutil::{lines_of, split_lines, str_to_chars, chars_to_string, trim_spec, trim_chars,
    find_char};

verus! {

/// Terminal state; the channels that carry a running command's output
/// back live with the caller.
pub struct Terminal {
    pub terminal_command: String,
    pub head_lines: usize,
    pub tail_lines: usize,
    pub timeout_secs: u64,
    pub terminal_output: String,
    pub history: Vec<String>,
    pub max_history: usize,
    pub is_running: bool,
}

impl Default for Terminal {
    /// A quiet terminal: a thousand lines kept at each end, a 25 second
    /// timeout, fifty history slots.
    fn default() -> (r: Terminal)
        ensures
            r.terminal_command@ == Seq::<char>::empty(),
            r.head_lines == 1000,
            r.tail_lines == 1000,
            r.timeout_secs == 25,
            r.terminal_output@ == Seq::<char>::empty(),
            r.history@.len() == 0,
            r.max_history == 50,
            !r.is_running,
    {
        Terminal {
            terminal_command: String::new(),
            head_lines: 1000,
            tail_lines: 1000,
            timeout_secs: 25,
            terminal_output: String::new(),
            history: Vec::new(),
            max_history: 50,
            is_running: false,
        }
    }
}

// ---------- head and tail of the captured output ----------

/// Lines joined back, each terminated by a newline.
pub open spec fn join_terminated(ls: Seq<Seq<char>>) -> Seq<char>
    decreases ls.len(),
{
    if ls.len() == 0 {
        Seq::empty()
    } else {
        ls[0] + "\n"@ + join_terminated(ls.drop_first())
    }
}

/// The capped transcript: all lines when they fit in head plus tail,
/// else the first `first_n` and last `last_n` with a marker between.
pub open spec fn head_tail_spec(first_n: int, last_n: int, lines: Seq<Seq<char>>) -> Seq<char> {
    if lines.len() <= first_n + last_n {
        join_terminated(lines)
    } else {
        join_terminated(lines.take(first_n)) + "[... output truncated ...]\n"@ + join_terminated(
            lines.skip(lines.len() - last_n),
        )
    }
}

fn join_lines_range(lines: &Vec<Vec<char>>, from: usize, to: usize, out: &mut Vec<char>)
    requires
        from <= to <= old(out)@.len() + lines@.len(),
        to <= lines@.len(),
    ensures
        final(out)@ == old(out)@ + join_terminated(
            lines.deep_view().subrange(from as int, to as int),
        ),
{
    let mut k: usize = from;
    proof {
        assert(out@ + join_terminated(lines.deep_view().subrange(from as int, from as int))
            =~= out@);
    }
    while k < to
        invariant
            from <= k <= to <= lines@.len(),
            lines.deep_view().len() == lines@.len(),
            out@ + join_terminated(lines.deep_view().subrange(k as int, to as int)) == old(out)@
                + join_terminated(lines.deep_view().subrange(from as int, to as int)),
        decreases to - k,
    {
        proof {
            reveal_strlit("\n");
            assert("\n"@ =~= seq!['\n']);
            let dv = lines.deep_view();
            assert(dv.subrange(k as int, to as int)[0] == dv[k as int]);
            assert(dv.subrange(k as int, to as int).drop_first() =~~= dv.subrange(
                k as int + 1,
                to as int,
            ));
            assert(dv[k as int] == lines@[k as int]@);
        }
        let ghost pre = out@;
        let line = &lines[k];
        out.extend_from_slice(line.as_slice());
        out.push('\n');
        proof {
            assert(out@ =~= pre + (lines.deep_view()[k as int] + "\n"@));
        }
        k = k + 1;
    }
    proof {
        assert(lines.deep_view().subrange(to as int, to as int) =~~= Seq::<Seq<char>>::empty());
    }
}

/// Caps a combined transcript at `first_n` head lines and `last_n` tail
/// lines, splicing a marker where lines were dropped.
pub fn get_head_and_tail(first_n: usize, last_n: usize, combined: &str) -> (r: String)
    ensures
        r@ == head_tail_spec(first_n as int, last_n as int, lines_of(combined@)),
{
    let cv = str_to_chars(combined);
    let lines = split_lines(&cv);
    let total = lines.len();
    let mut out: Vec<char> = Vec::new();
    if total <= first_n || total - first_n <= last_n {
        proof {
            assert(lines.deep_view().subrange(0, total as int) =~~= lines.deep_view());
        }
        join_lines_range(&lines, 0, total, &mut out);
    } else {
        join_lines_range(&lines, 0, first_n, &mut out);
        let marker = str_to_chars("[... output truncated ...]\n");
        let ghost pre = out@;
        out.extend_from_slice(marker.as_slice());
        proof {
            assert(out@ =~= pre + "[... output truncated ...]\n"@);
        }
        let start = total - last_n;
        join_lines_range(&lines, start, total, &mut out);
        proof {
            assert(lines.deep_view().subrange(0, first_n as int) =~~= lines.deep_view().take(
                first_n as int,
            ));
            assert(lines.deep_view().subrange(start as int, total as int)
                =~~= lines.deep_view().skip(lines.deep_view().len() - last_n));
        }
    }
    chars_to_string(&out)
}

// ---------- command parsing ----------

/// What the shell-style splitter yields for a command line, when the
/// line parses.
pub uninterp spec fn shell_split(s: Seq<char>) -> Option<Seq<Seq<char>>>;

/// Relies on `shell_words::split`: tokenization is a pure function of
/// the line; a line with mismatched quoting is refused, and the
/// splitter's own message is passed along.
#[verifier::external_body]
pub fn split_command_line(s: &str) -> (r: Result<Vec<String>, String>)
    ensures
        r matches Ok(v) ==> shell_split(s@) == Some(v.deep_view()),
        r is Err ==> shell_split(s@) is None,
{
    shell_words::split(s).map_err(|e| e.to_string())
}

/// One environment override for the child process.
pub struct EnvVar {
    pub key: String,
    pub value: String,
}

pub open spec fn is_ascii_alpha(c: char) -> bool {
    ('a' <= c && c <= 'z') || ('A' <= c && c <= 'Z')
}

pub open spec fn is_ascii_digit(c: char) -> bool {
    '0' <= c && c <= '9'
}

/// A valid child-environment key: an identifier of letters, digits and
/// underscores not starting with a digit.
pub open spec fn valid_env_key(k: Seq<char>) -> bool {
    k.len() > 0 && (k[0] == '_' || is_ascii_alpha(k[0])) && (forall|i: int|
        1 <= i < k.len() ==> k[i] == '_' || is_ascii_alpha(#[trigger] k[i]) || is_ascii_digit(
            k[i],
        ))
}

/// The index of the first `=` in the token, or its length.
pub open spec fn eq_index(t: Seq<char>) -> int
    decreases t.len(),
{
    if t.len() == 0 {
        0
    } else if t[0] == '=' {
        0
    } else {
        1 + eq_index(t.drop_first())
    }
}

/// Whether a token reads as a `KEY=VALUE` override.
pub open spec fn is_env_token(t: Seq<char>) -> bool {
    t.len() > 0 && t[0] != '-' && t.contains('=') && valid_env_key(t.take(eq_index(t)))
}

/// Where the overrides end: the first token that is no override.
pub open spec fn env_split_point(ts: Seq<Seq<char>>, i: int) -> int
    decreases ts.len() - i,
{
    if i < 0 || i >= ts.len() {
        ts.len() as int
    } else if is_env_token(ts[i]) {
        env_split_point(ts, i + 1)
    } else {
        i
    }
}

proof fn lemma_env_split_point_bounds(ts: Seq<Seq<char>>, i: int)
    requires
        0 <= i <= ts.len(),
    ensures
        i <= env_split_point(ts, i) <= ts.len(),
    decreases ts.len() - i,
{
    if i < ts.len() && is_env_token(ts[i]) {
        lemma_env_split_point_bounds(ts, i + 1);
    }
}

/// A command line, parsed.
pub enum ParsedCommand {
    /// Environment overrides, the program, and its arguments.
    Run { env: Vec<EnvVar>, program: String, args: Vec<String> },
    /// Nothing to run.
    Empty,
    /// Only overrides, no program after them.
    MissingProgram,
    /// The line did not tokenize; the splitter's reason.
    Invalid { message: String },
}

pub open spec fn env_view(e: EnvVar) -> (Seq<char>, Seq<char>) {
    (e.key@, e.value@)
}

proof fn lemma_eq_index_at(t: Seq<char>, j: int)
    requires
        0 <= j < t.len(),
        t[j] == '=',
        forall|k: int| 0 <= k < j ==> t[k] != '=',
    ensures
        eq_index(t) == j,
    decreases j,
{
    if j > 0 {
        assert(t.drop_first()[j - 1] == '=');
        assert(forall|k: int| 0 <= k < j - 1 ==> t.drop_first()[k] == t[k + 1] && t[k + 1] != '=');
        lemma_eq_index_at(t.drop_first(), j - 1);
    }
}

fn valid_env_key_exec(k: &Vec<char>) -> (r: bool)
    ensures
        r == valid_env_key(k@),
{
    if k.len() == 0 {
        return false;
    }
    let c0 = k[0];
    if !(c0 == '_' || (c0 >= 'a' && c0 <= 'z') || (c0 >= 'A' && c0 <= 'Z')) {
        return false;
    }
    let mut i: usize = 1;
    while i < k.len()
        invariant
            1 <= i <= k@.len(),
            k@.len() > 0,
            k@[0] == '_' || is_ascii_alpha(k@[0]),
            forall|m: int|
                1 <= m < i ==> k@[m] == '_' || is_ascii_alpha(#[trigger] k@[m]) || is_ascii_digit(
                    k@[m],
                ),
        decreases k.len() - i,
    {
        let c = k[i];
        if !(c == '_' || (c >= 'a' && c <= 'z') || (c >= 'A' && c <= 'Z') || (c >= '0' && c
            <= '9')) {
            return false;
        }
        i = i + 1;
    }
    true
}

/// Parses a command line: tokens come from the shell-style splitter,
/// leading `KEY=VALUE` tokens with identifier keys become environment
/// overrides, the next token is the program, the rest its arguments.
pub fn parse_terminal_command(line: &str) -> (r: ParsedCommand)
    ensures
        match shell_split(line@) {
            None => r is Invalid,
            Some(ts) => {
                if ts.len() == 0 {
                    r is Empty
                } else {
                    let p = env_split_point(ts, 0);
                    if p >= ts.len() {
                        r is MissingProgram
                    } else {
                        match r {
                            ParsedCommand::Run { env, program, args } => {
                                &&& env@.len() == p
                                &&& (forall|k: int|
                                    0 <= k < p ==> env_view(#[trigger] env@[k]) == (
                                        ts[k].take(eq_index(ts[k])),
                                        ts[k].skip(eq_index(ts[k]) + 1),
                                    ))
                                &&& program@ == ts[p]
                                &&& args.deep_view() == ts.skip(p + 1)
                            },
                            _ => false,
                        }
                    }
                }
            },
        },
{
    let tokens = match split_command_line(line) {
        Ok(t) => t,
        Err(message) => {
            return ParsedCommand::Invalid { message };
        },
    };
    let ghost ts = tokens.deep_view();
    if tokens.len() == 0 {
        return ParsedCommand::Empty;
    }
    let mut env: Vec<EnvVar> = Vec::new();
    let mut idx: usize = 0;
    let mut stopped = false;
    proof {
        lemma_env_split_point_bounds(ts, 0);
    }
    while idx < tokens.len() && !stopped
        invariant
            0 <= idx <= tokens@.len(),
            ts == tokens.deep_view(),
            ts.len() == tokens@.len(),
            env_split_point(ts, idx as int) == env_split_point(ts, 0),
            stopped ==> (idx as int) < ts.len() && env_split_point(ts, idx as int) == idx as int,
            env@.len() == idx,
            forall|k: int|
                0 <= k < idx ==> env_view(#[trigger] env@[k]) == (
                    ts[k].take(eq_index(ts[k])),
                    ts[k].skip(eq_index(ts[k]) + 1),
                ),
        decreases tokens.len() - idx + (if stopped {
            0int
        } else {
            1int
        }),
    {
        let tv = str_to_chars(tokens[idx].as_str());
        proof {
            assert(tv@ == ts[idx as int]);
        }
        let mut took = false;
        if tv.len() > 0 && tv[0] != '-' {
            if let Some(split_at) = find_char(&tv, '=') {
                proof {
                    lemma_eq_index_at(tv@, split_at as int);
                }
                let mut key: Vec<char> = Vec::new();
                let mut m: usize = 0;
                while m < split_at
                    invariant
                        m <= split_at <= tv@.len(),
                        key@ =~= tv@.take(m as int),
                    decreases split_at - m,
                {
                    let c = tv[m];
                    key.push(c);
                    m = m + 1;
                }
                proof {
                    assert(key@ =~= tv@.take(eq_index(tv@)));
                }
                if valid_env_key_exec(&key) {
                    let mut value: Vec<char> = Vec::new();
                    let mut m2: usize = split_at + 1;
                    while m2 < tv.len()
                        invariant
                            split_at as int + 1 <= m2 as int,
                            m2 as int <= tv@.len() || m2 as int == split_at as int + 1,
                            split_at < tv@.len(),
                            value@ =~= tv@.subrange(
                                split_at as int + 1,
                                (if m2 as int <= tv@.len() {
                                    m2 as int
                                } else {
                                    split_at as int + 1
                                }),
                            ),
                        decreases tv.len() - m2,
                    {
                        let c = tv[m2];
                        value.push(c);
                        m2 = m2 + 1;
                    }
                    proof {
                        assert(value@ =~= tv@.skip(eq_index(tv@) + 1));
                        assert(is_env_token(ts[idx as int]));
                        assert(env_split_point(ts, idx as int) == env_split_point(
                            ts,
                            idx as int + 1,
                        ));
                        lemma_env_split_point_bounds(ts, idx as int + 1);
                    }
                    let kq = chars_to_string(&key);
                    let vq = chars_to_string(&value);
                    env.push(EnvVar { key: kq, value: vq });
                    idx = idx + 1;
                    took = true;
                }
            }
        }
        if !took {
            proof {
                assert(!is_env_token(ts[idx as int]));
                assert(env_split_point(ts, idx as int) == idx as int);
            }
            stopped = true;
        }
    }
    proof {
        if !stopped {
            assert(idx == tokens@.len());
            assert(env_split_point(ts, idx as int) == ts.len() as int);
        }
        assert(env_split_point(ts, 0) == env_split_point(ts, idx as int));
    }
    if idx >= tokens.len() {
        return ParsedCommand::MissingProgram;
    }
    let program = tokens[idx].clone();
    let mut args: Vec<String> = Vec::new();
    let mut a: usize = idx + 1;
    while a < tokens.len()
        invariant
            idx as int + 1 <= a as int <= tokens@.len() || a as int == idx as int + 1,
            ts == tokens.deep_view(),
            ts.len() == tokens@.len(),
            (idx as int) < ts.len(),
            args.deep_view() =~~= ts.subrange(
                idx as int + 1,
                (if a as int <= ts.len() {
                    a as int
                } else {
                    idx as int + 1
                }),
            ),
        decreases tokens.len() - a,
    {
        let t = tokens[a].clone();
        let ghost pre = args.deep_view();
        args.push(t);
        proof {
            assert(args.deep_view() =~~= pre.push(ts[a as int]));
            assert(args.deep_view() =~~= ts.subrange(idx as int + 1, a as int + 1));
        }
        a = a + 1;
    }
    proof {
        assert(args.deep_view() =~~= ts.skip(idx as int + 1));
    }
    ParsedCommand::Run { env, program, args }
}

// ---------- history ----------

/// The history with the first entry equal to `c` removed, if any.
pub open spec fn remove_first_eq(h: Seq<Seq<char>>, c: Seq<char>) -> Seq<Seq<char>>
    decreases h.len(),
{
    if h.len() == 0 {
        h
    } else if h[0] == c {
        h.drop_first()
    } else {
        seq![h[0]] + remove_first_eq(h.drop_first(), c)
    }
}

/// What the history holds after a command is recorded: nothing changes
/// for a blank command; otherwise the command moves to the front, an
/// older duplicate is dropped, and the list is capped.
pub open spec fn history_after(h: Seq<Seq<char>>, cmd: Seq<char>, max: int) -> Seq<Seq<char>> {
    let c = trim_spec(cmd);
    if c.len() == 0 {
        h
    } else {
        let h2 = seq![c] + remove_first_eq(h, c);
        if h2.len() > max {
            h2.drop_last()
        } else {
            h2
        }
    }
}

proof fn lemma_remove_first_at(h: Seq<Seq<char>>, c: Seq<char>, j: int)
    requires
        0 <= j < h.len(),
        h[j] == c,
        forall|k: int| 0 <= k < j ==> h[k] != c,
    ensures
        remove_first_eq(h, c) == h.remove(j),
    decreases j,
{
    if j == 0 {
        assert(h.drop_first() =~~= h.remove(0));
    } else {
        assert(forall|k: int| 0 <= k < j - 1 ==> h.drop_first()[k] == h[k + 1]);
        lemma_remove_first_at(h.drop_first(), c, j - 1);
        assert(seq![h[0]] + h.drop_first().remove(j - 1) =~~= h.remove(j));
    }
}

proof fn lemma_remove_first_none(h: Seq<Seq<char>>, c: Seq<char>)
    requires
        forall|k: int| 0 <= k < h.len() ==> h[k] != c,
    ensures
        remove_first_eq(h, c) == h,
    decreases h.len(),
{
    if h.len() > 0 {
        assert(forall|k: int| 0 <= k < h.len() - 1 ==> h.drop_first()[k] == h[k + 1]);
        lemma_remove_first_none(h.drop_first(), c);
        assert(seq![h[0]] + h.drop_first() =~~= h);
    }
}

/// Records a command: most recent first, de-duplicated by exact match,
/// capped at `max_history` entries. A blank command is not recorded.
pub fn add_to_history(term: &mut Terminal, cmd: &str)
    ensures
        final(term).history.deep_view() == history_after(
            old(term).history.deep_view(),
            cmd@,
            old(term).max_history as int,
        ),
        final(term).terminal_command == old(term).terminal_command,
        final(term).terminal_output == old(term).terminal_output,
        final(term).head_lines == old(term).head_lines,
        final(term).tail_lines == old(term).tail_lines,
        final(term).timeout_secs == old(term).timeout_secs,
        final(term).max_history == old(term).max_history,
        final(term).is_running == old(term).is_running,
{
    let ghost h0 = term.history.deep_view();
    let cv = str_to_chars(cmd);
    let trimmed = trim_chars(&cv);
    if trimmed.len() == 0 {
        return ;
    }
    let c = chars_to_string(&trimmed);
    let ghost cs = trim_spec(cmd@);
    let mut j: usize = 0;
    let mut found = false;
    while j < term.history.len() && !found
        invariant
            j <= term.history@.len(),
            term == old(term),
            c@ == cs,
            h0 == term.history.deep_view(),
            h0.len() == term.history@.len(),
            !found ==> forall|k: int| 0 <= k < j ==> h0[k] != cs,
            found ==> j < h0.len() && h0[j as int] == cs && (forall|k: int|
                0 <= k < j ==> h0[k] != cs),
        decreases term.history.len() - j + (if found {
            0int
        } else {
            1int
        }),
    {
        proof {
            assert(h0[j as int] == term.history@[j as int]@);
        }
        if term.history[j] == c {
            found = true;
        } else {
            j = j + 1;
        }
    }
    if found {
        term.history.remove(j);
        proof {
            lemma_remove_first_at(h0, cs, j as int);
            assert(term.history.deep_view() =~~= h0.remove(j as int));
        }
    } else {
        proof {
            lemma_remove_first_none(h0, cs);
        }
    }
    let ghost h1 = term.history.deep_view();
    term.history.insert(0, c);
    proof {
        assert(term.history.deep_view() =~~= seq![cs] + h1);
    }
    if term.history.len() > term.max_history {
        let ghost h2 = term.history.deep_view();
        term.history.pop();
        proof {
            assert(term.history.deep_view() =~~= h2.drop_last());
        }
    }
}

} // verus!
