//! Command lines that Fleet runs, and how they are shown to the user.

use vstd::prelude::*;
use crate::text::{chars_of, join_words, string_of, views};

verus! {

/// A program and its arguments, passed to the program directly (never through a shell).
#[derive(Debug)]
pub struct Invocation {
    pub program: String,
    pub args: Vec<String>,
}

impl View for Invocation {
    /// The whole command line: the program, then each argument.
    type V = Seq<Seq<char>>;

    open spec fn view(&self) -> Seq<Seq<char>> {
        seq![self.program@] + views(self.args@)
    }
}

/// Characters that a POSIX shell reads literally in an unquoted word.
pub open spec fn is_shell_safe(c: char) -> bool {
    ||| ('a' <= c && c <= 'z')
    ||| ('A' <= c && c <= 'Z')
    ||| ('0' <= c && c <= '9')
    ||| c == '_' || c == '@' || c == '%' || c == '+' || c == '='
    ||| c == ':' || c == ',' || c == '.' || c == '/' || c == '-'
}

/// `s` with each single quote written as `'\''`.
pub open spec fn escape_quotes(s: Seq<char>) -> Seq<char>
    decreases s.len(),
{
    if s.len() == 0 {
        Seq::empty()
    } else {
        escape_quotes(s.drop_last()) + if s.last() == '\'' {
            seq!['\'', '\\', '\'', '\'']
        } else {
            seq![s.last()]
        }
    }
}

/// How one word is written for a POSIX shell: unchanged when it is nonempty
/// and made of safe characters only, otherwise inside single quotes.
pub open spec fn quoted(s: Seq<char>) -> Seq<char> {
    if s.len() > 0 && forall|i: int| 0 <= i < s.len() ==> is_shell_safe(#[trigger] s[i]) {
        s
    } else {
        seq!['\''] + escape_quotes(s) + seq!['\'']
    }
}

/// A command line as a shell would read it: each word quoted, separated by spaces.
pub open spec fn shell_line(words: Seq<Seq<char>>) -> Seq<char> {
    join_words(words.map_values(|w: Seq<char>| quoted(w)))
}

fn is_safe_char(c: char) -> (b: bool)
    ensures
        b == is_shell_safe(c),
{
    ('a' <= c && c <= 'z') || ('A' <= c && c <= 'Z') || ('0' <= c && c <= '9') || c == '_'
        || c == '@' || c == '%' || c == '+' || c == '=' || c == ':' || c == ',' || c == '.'
        || c == '/' || c == '-'
}

/// Quotes one argument for the remote shell that SSH hands a command string to.
pub fn quote(s: &str) -> (r: String)
    ensures
        r@ == quoted(s@),
{
    let cs = chars_of(s);
    let mut safe = cs.len() > 0;
    let mut i: usize = 0;
    while i < cs.len()
        invariant
            cs@ == s@,
            i <= cs.len(),
            safe <==> (cs.len() > 0 && forall|j: int| 0 <= j < i ==> is_shell_safe(#[trigger] cs@[j])),
        decreases cs.len() - i,
    {
        if !is_safe_char(cs[i]) {
            safe = false;
        }
        i = i + 1;
    }
    if safe {
        return string_of(&cs);
    }
    let mut out: Vec<char> = Vec::new();
    out.push('\'');
    let mut k: usize = 0;
    while k < cs.len()
        invariant
            cs@ == s@,
            k <= cs.len(),
            out@ == seq!['\''] + escape_quotes(cs@.take(k as int)),
        decreases cs.len() - k,
    {
        let c = cs[k];
        assert(cs@.take(k + 1).drop_last() == cs@.take(k as int));
        if c == '\'' {
            out.push('\'');
            out.push('\\');
            out.push('\'');
            out.push('\'');
        } else {
            out.push(c);
        }
        k = k + 1;
    }
    assert(cs@.take(cs.len() as int) == cs@);
    out.push('\'');
    string_of(&out)
}

impl Invocation {
    pub fn new(program: &str, args: &[&str]) -> (r: Self)
        ensures
            r.program@ == program@,
            views(r.args@) == args@.map_values(|a: &str| a@),
    {
        let mut v: Vec<String> = Vec::new();
        let mut i: usize = 0;
        while i < args.len()
            invariant
                i <= args.len(),
                v@.len() == i,
                views(v@) == args@.take(i as int).map_values(|a: &str| a@),
            decreases args.len() - i,
        {
            let a: &str = args[i];
            let owned = a.to_owned();
            assert(owned@ == args@[i as int]@);
            let ghost before = v@;
            v.push(owned);
            assert(views(v@) =~= args@.take(i + 1).map_values(|a: &str| a@)) by {
                assert(views(v@).len() == i + 1);
                assert forall|j: int| 0 <= j < i + 1 implies #[trigger] views(v@)[j]
                    == args@.take(i + 1).map_values(|a: &str| a@)[j] by {
                    if j < i {
                        assert(v@[j] == before[j]);
                        assert(views(before)[j] == args@.take(i as int).map_values(|a: &str| a@)[j]);
                    }
                }
            }
            i = i + 1;
        }
        assert(args@.take(args.len() as int) == args@);
        Invocation { program: program.to_owned(), args: v }
    }

    /// The command line as the user would type it in a shell.
    pub fn display(&self) -> (r: String)
        ensures
            r@ == shell_line(self@),
    {
        let mut words: Vec<String> = Vec::new();
        words.push(self.program.clone());
        let mut i: usize = 0;
        while i < self.args.len()
            invariant
                i <= self.args.len(),
                views(words@) == self@.take(i + 1),
            decreases self.args.len() - i,
        {
            let ghost before = views(words@);
            words.push(self.args[i].clone());
            assert(views(words@) =~= before.push(self.args@[i as int]@));
            assert(self@.take(i + 2) =~= self@.take(i + 1).push(self.args@[i as int]@));
            i = i + 1;
        }
        assert(self@.take(self.args.len() + 1) =~= self@);
        shell_join(words.as_slice())
    }
}

/// The words quoted for a POSIX shell and separated by spaces: the command
/// string that SSH hands to the remote shell.
pub fn shell_join(words: &[String]) -> (r: String)
    ensures
        r@ == shell_line(views(words@)),
{
    let ghost ws = views(words@);
    let mut out: Vec<char> = Vec::new();
    let mut i: usize = 0;
    assert(ws.take(0).map_values(|w: Seq<char>| quoted(w)) =~= Seq::<Seq<char>>::empty());
    while i < words.len()
        invariant
            ws == views(words@),
            i <= words.len(),
            out@ == shell_line(ws.take(i as int)),
        decreases words.len() - i,
    {
        let q = chars_of(quote(words[i].as_str()).as_str());
        assert(q@ == quoted(ws[i as int]));
        if i > 0 {
            out.push(' ');
        }
        let ghost start = out@;
        let mut k: usize = 0;
        while k < q.len()
            invariant
                k <= q.len(),
                out@ == start + q@.take(k as int),
            decreases q.len() - k,
        {
            out.push(q[k]);
            k = k + 1;
        }
        assert(q@.take(q.len() as int) == q@);
        assert(ws.take(i + 1).map_values(|w: Seq<char>| quoted(w)).drop_last() =~= ws.take(
            i as int,
        ).map_values(|w: Seq<char>| quoted(w)));
        assert(ws.take(i + 1).map_values(|w: Seq<char>| quoted(w)).last() == q@);
        i = i + 1;
    }
    assert(ws.take(words.len() as int) =~= ws);
    string_of(&out)
}

/// Where a POSIX shell is while it reads a command line.
pub enum ShellMode {
    /// Outside quotes.
    Plain,
    /// Inside single quotes.
    Quoted,
    /// Just after an unquoted backslash.
    Escaped,
}

/// A POSIX shell part way through splitting a command line into words:
/// the words so far, the word being read (`in_word` once it has begun, even
/// if still empty), and whether everything read so far was understood.
pub struct ShellState {
    pub words: Seq<Seq<char>>,
    pub cur: Seq<char>,
    pub in_word: bool,
    pub mode: ShellMode,
    pub ok: bool,
}

/// The state before anything is read.
pub open spec fn shell_start() -> ShellState {
    ShellState { words: Seq::empty(), cur: Seq::empty(), in_word: false, mode: ShellMode::Plain, ok: true }
}

/// Reads one character: spaces split words, single quotes keep everything
/// up to the next single quote, a backslash keeps the next character, and
/// safe characters stand for themselves. Any other unquoted character (an
/// operator, `$`, a glob, ...) is not understood.
pub open spec fn shell_step(st: ShellState, c: char) -> ShellState {
    if !st.ok {
        st
    } else {
        match st.mode {
            ShellMode::Quoted => if c == '\'' {
                ShellState { mode: ShellMode::Plain, ..st }
            } else {
                ShellState { cur: st.cur.push(c), ..st }
            },
            ShellMode::Escaped => ShellState { cur: st.cur.push(c), mode: ShellMode::Plain, ..st },
            ShellMode::Plain => if c == ' ' {
                if st.in_word {
                    ShellState { words: st.words.push(st.cur), cur: Seq::empty(), in_word: false, ..st }
                } else {
                    st
                }
            } else if c == '\'' {
                ShellState { in_word: true, mode: ShellMode::Quoted, ..st }
            } else if c == '\\' {
                ShellState { in_word: true, mode: ShellMode::Escaped, ..st }
            } else if is_shell_safe(c) {
                ShellState { cur: st.cur.push(c), in_word: true, ..st }
            } else {
                ShellState { ok: false, ..st }
            },
        }
    }
}

/// The state after reading `s` from `st`.
pub open spec fn shell_read_from(st: ShellState, s: Seq<char>) -> ShellState
    decreases s.len(),
{
    if s.len() == 0 {
        st
    } else {
        shell_step(shell_read_from(st, s.drop_last()), s.last())
    }
}

/// The words a POSIX shell reads from `line`, or `None` when the line holds
/// something this reading does not cover (an unclosed quote, an operator).
pub open spec fn shell_words(line: Seq<char>) -> Option<Seq<Seq<char>>> {
    let st = shell_read_from(shell_start(), line);
    if st.ok && st.mode == ShellMode::Plain {
        Some(
            if st.in_word {
                st.words.push(st.cur)
            } else {
                st.words
            },
        )
    } else {
        None
    }
}

/// `st` with `w` added to the word being read.
pub open spec fn extended(st: ShellState, w: Seq<char>) -> ShellState {
    ShellState { cur: st.cur + w, ..st }
}

/// `st` with `w` added to the word being read, which has begun.
pub open spec fn word_extended(st: ShellState, w: Seq<char>) -> ShellState {
    ShellState { cur: st.cur + w, in_word: true, ..st }
}

/// The state after reading the words `ws`, the last one not yet ended.
pub open spec fn last_word_open(ws: Seq<Seq<char>>) -> ShellState {
    ShellState {
        words: ws.drop_last(),
        cur: ws.last(),
        in_word: true,
        mode: ShellMode::Plain,
        ok: true,
    }
}

proof fn lemma_read_one(st: ShellState, c: char)
    ensures
        shell_read_from(st, seq![c]) == shell_step(st, c),
{
    assert(seq![c].drop_last() =~= Seq::<char>::empty());
    assert(shell_read_from(st, Seq::<char>::empty()) == st);
}

proof fn lemma_read_concat(st: ShellState, a: Seq<char>, b: Seq<char>)
    ensures
        shell_read_from(st, a + b) == shell_read_from(shell_read_from(st, a), b),
    decreases b.len(),
{
    if b.len() == 0 {
        assert(a + b =~= a);
    } else {
        lemma_read_concat(st, a, b.drop_last());
        assert((a + b).drop_last() =~= a + b.drop_last());
        assert((a + b).last() == b.last());
    }
}

proof fn lemma_read_escaped(st: ShellState, w: Seq<char>)
    requires
        st.ok,
        st.in_word,
        st.mode == ShellMode::Quoted,
    ensures
        shell_read_from(st, escape_quotes(w)) == extended(st, w),
    decreases w.len(),
{
    if w.len() == 0 {
        assert(st.cur + w =~= st.cur);
    } else {
        let front = escape_quotes(w.drop_last());
        lemma_read_escaped(st, w.drop_last());
        let mid = ShellState { cur: st.cur + w.drop_last(), ..st };
        if w.last() == '\'' {
            let tail = seq!['\'', '\\', '\'', '\''];
            lemma_read_concat(st, front, tail);
            let s1 = shell_step(mid, '\'');
            let s2 = shell_step(s1, '\\');
            let s3 = shell_step(s2, '\'');
            lemma_read_one(mid, '\'');
            lemma_read_one(s1, '\\');
            lemma_read_one(s2, '\'');
            lemma_read_one(s3, '\'');
            assert(tail =~= seq!['\''] + seq!['\\'] + seq!['\''] + seq!['\'']);
            lemma_read_concat(mid, seq!['\''], seq!['\\']);
            lemma_read_concat(mid, seq!['\''] + seq!['\\'], seq!['\'']);
            lemma_read_concat(mid, seq!['\''] + seq!['\\'] + seq!['\''], seq!['\'']);
            assert(s3.cur == mid.cur.push('\''));
            assert(shell_read_from(mid, seq!['\''] + seq!['\\']) == s2);
            assert(shell_read_from(mid, seq!['\''] + seq!['\\'] + seq!['\'']) == s3);
            let s4 = shell_step(s3, '\'');
            assert(shell_read_from(mid, tail) == s4);
            assert(mid.cur + seq!['\''] =~= mid.cur.push('\''));
            assert(s4 == extended(mid, seq!['\'']));
        } else {
            lemma_read_concat(st, front, seq![w.last()]);
            lemma_read_one(mid, w.last());
        }
        assert(st.cur + w.drop_last() + seq![w.last()] =~= st.cur + w);
        assert((st.cur + w.drop_last()).push(w.last()) =~= st.cur + w);
    }
}

proof fn lemma_read_safe(st: ShellState, w: Seq<char>)
    requires
        st.ok,
        st.mode == ShellMode::Plain,
        w.len() > 0,
        forall|i: int| 0 <= i < w.len() ==> is_shell_safe(#[trigger] w[i]),
    ensures
        shell_read_from(st, w) == word_extended(st, w),
    decreases w.len(),
{
    if w.len() == 1 {
        assert(w.drop_last() =~= Seq::<char>::empty());
        assert(st.cur.push(w[0]) =~= st.cur + w);
    } else {
        assert forall|i: int| 0 <= i < w.drop_last().len() implies is_shell_safe(
            #[trigger] w.drop_last()[i],
        ) by {
            assert(w.drop_last()[i] == w[i]);
        }
        lemma_read_safe(st, w.drop_last());
        assert(is_shell_safe(w[w.len() - 1]));
        assert((st.cur + w.drop_last()).push(w.last()) =~= st.cur + w);
    }
}

proof fn lemma_read_quoted(st: ShellState, w: Seq<char>)
    requires
        st.ok,
        st.mode == ShellMode::Plain,
    ensures
        shell_read_from(st, quoted(w)) == word_extended(st, w),
{
    if w.len() > 0 && forall|i: int| 0 <= i < w.len() ==> is_shell_safe(#[trigger] w[i]) {
        lemma_read_safe(st, w);
    } else {
        let open = seq!['\''];
        let q1 = ShellState { in_word: true, mode: ShellMode::Quoted, ..st };
        lemma_read_one(st, '\'');
        assert(shell_read_from(st, open) == q1);
        lemma_read_escaped(q1, w);
        lemma_read_concat(st, open, escape_quotes(w));
        lemma_read_concat(st, open + escape_quotes(w), seq!['\'']);
        lemma_read_one(extended(q1, w), '\'');
        assert(st.cur + w =~= q1.cur + w);
    }
}

proof fn lemma_read_line(ws: Seq<Seq<char>>)
    requires
        ws.len() > 0,
    ensures
        shell_read_from(shell_start(), shell_line(ws)) == last_word_open(ws),
    decreases ws.len(),
{
    let qs = ws.map_values(|w: Seq<char>| quoted(w));
    if ws.len() == 1 {
        assert(shell_line(ws) == quoted(ws[0]));
        lemma_read_quoted(shell_start(), ws[0]);
        assert(Seq::<char>::empty() + ws[0] =~= ws[0]);
        assert(ws.drop_last() =~= Seq::<Seq<char>>::empty());
    } else {
        let front = ws.drop_last();
        assert(qs.drop_last() =~= front.map_values(|w: Seq<char>| quoted(w)));
        assert(shell_line(ws) == shell_line(front) + seq![' '] + quoted(ws.last()));
        lemma_read_line(front);
        let st1 = shell_read_from(shell_start(), shell_line(front));
        lemma_read_concat(shell_start(), shell_line(front), seq![' ']);
        lemma_read_one(st1, ' ');
        let st2 = shell_read_from(st1, seq![' ']);
        assert(st2.words =~= front);
        lemma_read_quoted(st2, ws.last());
        lemma_read_concat(shell_start(), shell_line(front) + seq![' '], quoted(ws.last()));
        assert(Seq::<char>::empty() + ws.last() =~= ws.last());
    }
}

/// A POSIX shell that reads a command line built by [`shell_join`] (such as
/// the one SSH hands to the remote shell) gets back exactly the same
/// words, empty words and quotes included.
pub proof fn quoting_round_trips(ws: Seq<Seq<char>>)
    ensures
        shell_words(shell_line(ws)) == Some(ws),
{
    if ws.len() == 0 {
        assert(shell_line(ws) =~= Seq::<char>::empty());
    } else {
        lemma_read_line(ws);
        assert(ws.drop_last().push(ws.last()) =~= ws);
    }
}

proof fn lemma_escape_len(s: Seq<char>)
    ensures
        escape_quotes(s).len() >= s.len(),
    decreases s.len(),
{
    if s.len() > 0 {
        lemma_escape_len(s.drop_last());
    }
}

/// A word goes to the remote shell unquoted exactly when it is nonempty and
/// made of ASCII letters and digits and the characters `_@%+=:,./-`; so no
/// character that a shell expands, globs, splits on or treats as syntax
/// (such as `*`, `?`, `[`, `$`, a quote, a space or `;`) is ever left bare.
pub proof fn bare_words_are_literal(w: Seq<char>)
    ensures
        quoted(w) == w <==> (w.len() > 0 && forall|i: int|
            0 <= i < w.len() ==> ('a' <= #[trigger] w[i] && w[i] <= 'z') || ('A' <= w[i] && w[i]
                <= 'Z') || ('0' <= w[i] && w[i] <= '9') || set!['_', '@', '%', '+', '=', ':', ',', '.', '/', '-'].contains(
                w[i],
            )),
        quoted(w) == w ==> forall|i: int|
            0 <= i < w.len() ==> !set![
                '*', '?', '[', ']', '{', '}', '$', '`', '"', '\'', '\\', '|', '&', ';', '<', '>', '(',
                ')', '~', '#', '!', '^', ' ', '\t', '\n', '\r',
            ].contains(#[trigger] w[i]),
{
    lemma_escape_len(w);
    let bare = w.len() > 0 && forall|i: int| 0 <= i < w.len() ==> is_shell_safe(#[trigger] w[i]);
    if !bare {
        assert((seq!['\''] + escape_quotes(w) + seq!['\'']).len() > w.len());
    }
}

} // verus!
