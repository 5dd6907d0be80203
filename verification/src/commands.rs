use vstd::prelude::*;

use crate::editor::{chars_of, is_whitespace, is_whitespace_char, string_of};

verus! {

/// The words of `s`: its runs of characters that are not whitespace.
pub open spec fn words(s: Seq<char>) -> Seq<Seq<char>>
    decreases s.len(),
{
    if s.len() == 0 {
        Seq::empty()
    } else {
        let w = words(s.drop_last());
        let c = s.last();
        if is_whitespace_char(c) {
            w
        } else if s.len() >= 2 && !is_whitespace_char(s[s.len() - 2]) {
            w.update(w.len() - 1, w.last().push(c))
        } else {
            w.push(seq![c])
        }
    }
}

/// The value of a run of decimal digits.
pub open spec fn digits_value(d: Seq<char>) -> nat
    decreases d.len(),
{
    if d.len() == 0 {
        0
    } else {
        digits_value(d.drop_last()) * 10 + ((d.last() as u32) - ('0' as u32)) as nat
    }
}

/// Every character of `d` is a decimal digit.
pub open spec fn all_digits(d: Seq<char>) -> bool {
    forall|i: int| 0 <= i < d.len() ==> '0' <= #[trigger] d[i] <= '9'
}

/// The `usize` that `s` reads as: an optional `+` and then one or more
/// decimal digits, with a value that fits.
pub open spec fn parse_usize_spec(s: Seq<char>) -> Option<usize> {
    let d = if s.len() > 0 && s[0] == '+' {
        s.drop_first()
    } else {
        s
    };
    if d.len() > 0 && all_digits(d) && digits_value(d) <= usize::MAX {
        Some(digits_value(d) as usize)
    } else {
        None
    }
}

/// How a `mux` command sets the multiplexer.
pub enum MuxCommand {
    Tabs,
    Panes,
    Swap,
    Invalid(String),
}

/// The instance a filter copy goes to: missing, not a number, or the
/// number given less one (not below zero).
pub enum IndexArg {
    Missing,
    Invalid(String),
    Index(usize),
}

/// A `filter` subcommand.
pub enum FilterCommand {
    Link,
    Persist,
    CopyTo(IndexArg),
    Save(Vec<String>),
    Load,
    Clear,
    Union,
    Intersect,
    Invalid(String),
    Missing,
}

/// A command typed at the command prompt.
pub enum Command {
    Quit,
    MouseCapture,
    ReadLink,
    Refresh,
    Open(Vec<String>),
    Copy,
    Close,
    Gutter,
    Mux(MuxCommand),
    Filter(FilterCommand),
    Export(Vec<String>),
    Jump(usize),
    Invalid(String),
    Empty,
}

/// The abstract form of a `mux` command.
pub enum MuxView {
    Tabs,
    Panes,
    Swap,
    Invalid(Seq<char>),
}

/// The abstract form of a filter copy's target.
pub enum IndexView {
    Missing,
    Invalid(Seq<char>),
    Index(usize),
}

/// The abstract form of a `filter` subcommand.
pub enum FilterView {
    Link,
    Persist,
    CopyTo(IndexView),
    Save(Seq<Seq<char>>),
    Load,
    Clear,
    Union,
    Intersect,
    Invalid(Seq<char>),
    Missing,
}

/// The abstract form of a command.
pub enum CommandView {
    Quit,
    MouseCapture,
    ReadLink,
    Refresh,
    Open(Seq<Seq<char>>),
    Copy,
    Close,
    Gutter,
    Mux(MuxView),
    Filter(FilterView),
    Export(Seq<Seq<char>>),
    Jump(usize),
    Invalid(Seq<char>),
    Empty,
}

/// The texts of a list of strings.
pub open spec fn texts(v: Seq<String>) -> Seq<Seq<char>> {
    v.map_values(|s: String| s@)
}

impl MuxCommand {
    pub open spec fn view(&self) -> MuxView {
        match self {
            MuxCommand::Tabs => MuxView::Tabs,
            MuxCommand::Panes => MuxView::Panes,
            MuxCommand::Swap => MuxView::Swap,
            MuxCommand::Invalid(s) => MuxView::Invalid(s@),
        }
    }
}

impl IndexArg {
    pub open spec fn view(&self) -> IndexView {
        match self {
            IndexArg::Missing => IndexView::Missing,
            IndexArg::Invalid(s) => IndexView::Invalid(s@),
            IndexArg::Index(n) => IndexView::Index(*n),
        }
    }
}

impl FilterCommand {
    pub open spec fn view(&self) -> FilterView {
        match self {
            FilterCommand::Link => FilterView::Link,
            FilterCommand::Persist => FilterView::Persist,
            FilterCommand::CopyTo(a) => FilterView::CopyTo(a.view()),
            FilterCommand::Save(v) => FilterView::Save(texts(v@)),
            FilterCommand::Load => FilterView::Load,
            FilterCommand::Clear => FilterView::Clear,
            FilterCommand::Union => FilterView::Union,
            FilterCommand::Intersect => FilterView::Intersect,
            FilterCommand::Invalid(s) => FilterView::Invalid(s@),
            FilterCommand::Missing => FilterView::Missing,
        }
    }
}

impl Command {
    pub open spec fn view(&self) -> CommandView {
        match self {
            Command::Quit => CommandView::Quit,
            Command::MouseCapture => CommandView::MouseCapture,
            Command::ReadLink => CommandView::ReadLink,
            Command::Refresh => CommandView::Refresh,
            Command::Open(v) => CommandView::Open(texts(v@)),
            Command::Copy => CommandView::Copy,
            Command::Close => CommandView::Close,
            Command::Gutter => CommandView::Gutter,
            Command::Mux(m) => CommandView::Mux(m.view()),
            Command::Filter(f) => CommandView::Filter(f.view()),
            Command::Export(v) => CommandView::Export(texts(v@)),
            Command::Jump(n) => CommandView::Jump(*n),
            Command::Invalid(s) => CommandView::Invalid(s@),
            Command::Empty => CommandView::Empty,
        }
    }
}

/// What the words after `mux` ask for.
pub open spec fn mux_of(rest: Seq<Seq<char>>) -> MuxView {
    if rest.len() == 0 {
        MuxView::Swap
    } else {
        let c = rest[0];
        if c == "tabs"@ || c == "t"@ || c == "none"@ {
            MuxView::Tabs
        } else if c == "split"@ || c == "s"@ || c == "win"@ {
            MuxView::Panes
        } else {
            MuxView::Invalid(c)
        }
    }
}

/// What the words after `filter copy` give as the target.
pub open spec fn index_of_arg(rest: Seq<Seq<char>>) -> IndexView {
    if rest.len() == 0 {
        IndexView::Missing
    } else {
        match parse_usize_spec(rest[0]) {
            Some(n) => IndexView::Index(if n > 0 {
                (n - 1) as usize
            } else {
                0
            }),
            None => IndexView::Invalid(rest[0]),
        }
    }
}

/// What the words after `filter` ask for.
pub open spec fn filter_of(rest: Seq<Seq<char>>) -> FilterView {
    if rest.len() == 0 {
        FilterView::Missing
    } else {
        let c = rest[0];
        if c == "link"@ {
            FilterView::Link
        } else if c == "persist"@ {
            FilterView::Persist
        } else if c == "copy"@ || c == "c"@ {
            FilterView::CopyTo(index_of_arg(rest.skip(1)))
        } else if c == "save"@ {
            FilterView::Save(rest.skip(1))
        } else if c == "load"@ {
            FilterView::Load
        } else if c == "clear"@ {
            FilterView::Clear
        } else if c == "union"@ || c == "u"@ || c == "||"@ || c == "|"@ {
            FilterView::Union
        } else if c == "intersect"@ || c == "i"@ || c == "&&"@ || c == "&"@ {
            FilterView::Intersect
        } else {
            FilterView::Invalid(c)
        }
    }
}

/// The command the text `s` spells: its first word names it, and the
/// words after it are its arguments; a first word that names no command
/// but reads as a number asks to jump to that line.
pub open spec fn command_of(s: Seq<char>) -> CommandView {
    let w = words(s);
    if w.len() == 0 {
        CommandView::Empty
    } else {
        let c = w[0];
        let rest = w.skip(1);
        if c == "quit"@ || c == "q"@ {
            CommandView::Quit
        } else if c == "mcap"@ {
            CommandView::MouseCapture
        } else if c == "readlink"@ || c == "realpath"@ || c == "rl"@ || c == "rp"@ {
            CommandView::ReadLink
        } else if c == "refresh"@ {
            CommandView::Refresh
        } else if c == "open"@ || c == "o"@ {
            CommandView::Open(rest)
        } else if c == "pb"@ || c == "pbcopy"@ {
            CommandView::Copy
        } else if c == "close"@ || c == "c"@ {
            CommandView::Close
        } else if c == "gutter"@ || c == "g"@ {
            CommandView::Gutter
        } else if c == "mux"@ || c == "m"@ {
            CommandView::Mux(mux_of(rest))
        } else if c == "filter"@ || c == "find"@ || c == "f"@ {
            CommandView::Filter(filter_of(rest))
        } else if c == "export"@ {
            CommandView::Export(rest)
        } else {
            match parse_usize_spec(c) {
                Some(n) => CommandView::Jump(n),
                None => CommandView::Invalid(c),
            }
        }
    }
}

/// The words of a non-empty text ending in a character that is not
/// whitespace end with a word.
proof fn lemma_words_nonempty(s: Seq<char>)
    requires
        s.len() > 0,
        !is_whitespace_char(s.last()),
    ensures
        words(s).len() > 0,
    decreases s.len(),
{
    if s.len() >= 2 && !is_whitespace_char(s[s.len() - 2]) {
        assert(s.drop_last().last() == s[s.len() - 2]);
        lemma_words_nonempty(s.drop_last());
    }
}

/// The texts of the words found so far, with the word being read.
spec fn pending_words(out: Seq<Vec<char>>, cur: Seq<char>) -> Seq<Seq<char>> {
    let done = out.map_values(|v: Vec<char>| v@);
    if cur.len() > 0 {
        done.push(cur)
    } else {
        done
    }
}

/// The words of `s`.
pub fn split_words(s: &Vec<char>) -> (r: Vec<Vec<char>>)
    ensures
        r@.map_values(|v: Vec<char>| v@) == words(s@),
{
    let mut out: Vec<Vec<char>> = Vec::new();
    let mut cur: Vec<char> = Vec::new();
    let mut i: usize = 0;
    while i < s.len()
        invariant
            i <= s@.len(),
            pending_words(out@, cur@) == words(s@.take(i as int)),
            cur@.len() > 0 <==> (i > 0 && !is_whitespace_char(s@[i - 1])),
        decreases s@.len() - i,
    {
        let c = s[i];
        let ghost before_out = out@;
        let ghost before_cur = cur@;
        proof {
            assert(s@.take(i + 1).drop_last() =~= s@.take(i as int));
            assert(s@.take(i + 1).last() == c);
            if i > 0 {
                assert(s@.take(i + 1)[i - 1] == s@[i - 1]);
            }
        }
        if is_whitespace(c) {
            if cur.len() > 0 {
                let mut word: Vec<char> = Vec::new();
                std::mem::swap(&mut word, &mut cur);
                out.push(word);
                proof {
                    assert(out@.map_values(|v: Vec<char>| v@) =~= before_out.map_values(|v: Vec<char>| v@).push(before_cur));
                }
            }
        } else {
            cur.push(c);
            proof {
                let done = before_out.map_values(|v: Vec<char>| v@);
                if before_cur.len() > 0 {
                    lemma_words_nonempty(s@.take(i as int));
                    assert(pending_words(out@, cur@) =~= done.push(before_cur).update(
                        done.len() as int,
                        before_cur.push(c),
                    ));
                } else {
                    assert(cur@ =~= seq![c]);
                }
            }
        }
        i = i + 1;
    }
    proof {
        assert(s@.take(s@.len() as int) =~= s@);
    }
    if cur.len() > 0 {
        let ghost before_out = out@;
        out.push(cur);
        proof {
            assert(out@.map_values(|v: Vec<char>| v@) =~= before_out.map_values(|v: Vec<char>| v@).push(
                pending_words(before_out, out@.last()@).last(),
            ));
        }
    } else {
        proof {
            assert(pending_words(out@, cur@) == out@.map_values(|v: Vec<char>| v@));
        }
    }
    out
}

/// The value of the digits so far stays within the value of them all.
proof fn lemma_digits_value_prefix(d: Seq<char>, i: int)
    requires
        0 <= i <= d.len(),
        all_digits(d),
    ensures
        digits_value(d.take(i)) <= digits_value(d),
    decreases d.len() - i,
{
    if i < d.len() {
        lemma_digits_value_prefix(d, i + 1);
        assert(d.take(i + 1).drop_last() =~= d.take(i));
    } else {
        assert(d.take(i) =~= d);
    }
}

/// The `usize` that `s` reads as: an optional `+` and then one or more
/// decimal digits, with a value that fits.
pub fn parse_usize(s: &Vec<char>) -> (r: Option<usize>)
    ensures
        r == parse_usize_spec(s@),
{
    let n = s.len();
    let start: usize = if n > 0 && s[0] == '+' {
        1
    } else {
        0
    };
    let ghost d = if s@.len() > 0 && s@[0] == '+' {
        s@.drop_first()
    } else {
        s@
    };
    proof {
        assert(d =~= s@.skip(start as int));
    }
    if start >= n {
        proof {
            assert(d.len() == 0);
        }
        return None;
    }
    let mut value: usize = 0;
    let mut i: usize = start;
    while i < n
        invariant
            start <= i <= n == s@.len(),
            d == s@.skip(start as int),
            d == (if s@.len() > 0 && s@[0] == '+' {
                s@.drop_first()
            } else {
                s@
            }),
            all_digits(d.take(i - start)),
            value == digits_value(d.take(i - start)),
        decreases n - i,
    {
        let c = s[i];
        proof {
            assert(d.take(i + 1 - start).drop_last() =~= d.take(i - start));
            assert(d.take(i + 1 - start).last() == c);
        }
        if !('0' <= c && c <= '9') {
            proof {
                assert(d[i - start] == c);
                assert(!('0' <= d[i - start] <= '9'));
                assert(!all_digits(d));
            }
            return None;
        }
        let digit = (c as u32 - '0' as u32) as usize;
        proof {
            assert(all_digits(d.take(i + 1 - start))) by {
                assert forall|j: int| 0 <= j < d.take(i + 1 - start).len() implies '0' <= #[trigger] d.take(i + 1 - start)[j] <= '9' by {
                    if j < i - start {
                        assert(d.take(i + 1 - start)[j] == d.take(i - start)[j]);
                    }
                }
            }
            assert(digits_value(d.take(i + 1 - start)) == value * 10 + digit);
        }
        let wide: u128 = (value as u128) * 10 + (digit as u128);
        if wide > usize::MAX as u128 {
            proof {
                if all_digits(d) {
                    lemma_digits_value_prefix(d, i + 1 - start);
                }
            }
            return None;
        }
        value = wide as usize;
        i = i + 1;
    }
    proof {
        assert(d.take(n - start) =~= d);
    }
    Some(value)
}

/// Whether the word `w` is the text `lit`.
fn word_is(w: &Vec<char>, lit: &str) -> (r: bool)
    ensures
        r == (w@ == lit@),
{
    let l = chars_of(lit);
    if w.len() != l.len() {
        proof {
            assert(w@.len() != l@.len());
        }
        return false;
    }
    let mut i: usize = 0;
    while i < w.len()
        invariant
            i <= w@.len() == l@.len(),
            l@ == lit@,
            forall|j: int| 0 <= j < i ==> w@[j] == l@[j],
        decreases w@.len() - i,
    {
        if w[i] != l[i] {
            proof {
                assert(w@[i as int] != l@[i as int]);
            }
            return false;
        }
        i = i + 1;
    }
    proof {
        assert(w@ =~= l@);
    }
    true
}

/// The strings of the words of `w` from position `from` on.
fn strings_from(w: &Vec<Vec<char>>, from: usize) -> (r: Vec<String>)
    requires
        from <= w@.len(),
    ensures
        texts(r@) == w@.map_values(|v: Vec<char>| v@).skip(from as int),
{
    let mut out: Vec<String> = Vec::new();
    let mut i: usize = from;
    while i < w.len()
        invariant
            from <= i <= w@.len(),
            texts(out@) == w@.map_values(|v: Vec<char>| v@).subrange(from as int, i as int),
        decreases w@.len() - i,
    {
        let s = string_of(&w[i]);
        let ghost before = out@;
        out.push(s);
        proof {
            assert(texts(out@) =~= texts(before).push(s@));
            assert(w@.map_values(|v: Vec<char>| v@).subrange(from as int, i + 1) =~= w@.map_values(
                |v: Vec<char>| v@,
            ).subrange(from as int, i as int).push(w@[i as int]@));
        }
        i = i + 1;
    }
    proof {
        assert(w@.map_values(|v: Vec<char>| v@).subrange(from as int, w@.len() as int) =~= w@.map_values(
            |v: Vec<char>| v@,
        ).skip(from as int));
    }
    out
}

fn parse_mux(w: &Vec<Vec<char>>) -> (r: MuxCommand)
    requires
        w@.len() >= 1,
    ensures
        r.view() == mux_of(w@.map_values(|v: Vec<char>| v@).skip(1)),
{
    let ghost ws = w@.map_values(|v: Vec<char>| v@);
    if w.len() < 2 {
        return MuxCommand::Swap;
    }
    let c = &w[1];
    proof {
        assert(ws.skip(1)[0] == c@);
    }
    if word_is(c, "tabs") || word_is(c, "t") || word_is(c, "none") {
        MuxCommand::Tabs
    } else if word_is(c, "split") || word_is(c, "s") || word_is(c, "win") {
        MuxCommand::Panes
    } else {
        MuxCommand::Invalid(string_of(c))
    }
}

fn parse_index_arg(w: &Vec<Vec<char>>) -> (r: IndexArg)
    requires
        w@.len() >= 2,
    ensures
        r.view() == index_of_arg(w@.map_values(|v: Vec<char>| v@).skip(2)),
{
    let ghost ws = w@.map_values(|v: Vec<char>| v@);
    if w.len() < 3 {
        return IndexArg::Missing;
    }
    let c = &w[2];
    proof {
        assert(ws.skip(2)[0] == c@);
    }
    match parse_usize(c) {
        Some(n) => IndexArg::Index(n.saturating_sub(1)),
        None => IndexArg::Invalid(string_of(c)),
    }
}

fn parse_filter(w: &Vec<Vec<char>>) -> (r: FilterCommand)
    requires
        w@.len() >= 1,
    ensures
        r.view() == filter_of(w@.map_values(|v: Vec<char>| v@).skip(1)),
{
    let ghost ws = w@.map_values(|v: Vec<char>| v@);
    if w.len() < 2 {
        return FilterCommand::Missing;
    }
    let c = &w[1];
    proof {
        assert(ws.skip(1)[0] == c@);
        assert(ws.skip(1).skip(1) =~= ws.skip(2));
    }
    if word_is(c, "link") {
        FilterCommand::Link
    } else if word_is(c, "persist") {
        FilterCommand::Persist
    } else if word_is(c, "copy") || word_is(c, "c") {
        FilterCommand::CopyTo(parse_index_arg(w))
    } else if word_is(c, "save") {
        FilterCommand::Save(strings_from(w, 2))
    } else if word_is(c, "load") {
        FilterCommand::Load
    } else if word_is(c, "clear") {
        FilterCommand::Clear
    } else if word_is(c, "union") || word_is(c, "u") || word_is(c, "||") || word_is(c, "|") {
        FilterCommand::Union
    } else if word_is(c, "intersect") || word_is(c, "i") || word_is(c, "&&") || word_is(c, "&") {
        FilterCommand::Intersect
    } else {
        FilterCommand::Invalid(string_of(c))
    }
}

/// The command the text `command` spells.
pub fn parse_command(command: &str) -> (r: Command)
    ensures
        r.view() == command_of(command@),
{
    let chars = chars_of(command);
    let w = split_words(&chars);
    let ghost ws = w@.map_values(|v: Vec<char>| v@);
    if w.len() == 0 {
        return Command::Empty;
    }
    let c = &w[0];
    proof {
        assert(ws[0] == c@);
    }
    if word_is(c, "quit") || word_is(c, "q") {
        Command::Quit
    } else if word_is(c, "mcap") {
        Command::MouseCapture
    } else if word_is(c, "readlink") || word_is(c, "realpath") || word_is(c, "rl") || word_is(
        c,
        "rp",
    ) {
        Command::ReadLink
    } else if word_is(c, "refresh") {
        Command::Refresh
    } else if word_is(c, "open") || word_is(c, "o") {
        Command::Open(strings_from(&w, 1))
    } else if word_is(c, "pb") || word_is(c, "pbcopy") {
        Command::Copy
    } else if word_is(c, "close") || word_is(c, "c") {
        Command::Close
    } else if word_is(c, "gutter") || word_is(c, "g") {
        Command::Gutter
    } else if word_is(c, "mux") || word_is(c, "m") {
        Command::Mux(parse_mux(&w))
    } else if word_is(c, "filter") || word_is(c, "find") || word_is(c, "f") {
        Command::Filter(parse_filter(&w))
    } else if word_is(c, "export") {
        Command::Export(strings_from(&w, 1))
    } else {
        match parse_usize(c) {
            Some(n) => Command::Jump(n),
            None => Command::Invalid(string_of(c)),
        }
    }
}

/// The words naming each composition of filters name it and nothing else:
/// `filter` followed by `intersect`, `i`, `&&` or `&` asks for the
/// intersection, and followed by `union`, `u`, `||` or `|` for the union,
/// whatever words follow.
pub proof fn law_composition_words(s: Seq<char>)
    requires
        words(s).len() >= 2,
        words(s)[0] == "filter"@,
    ensures
        ({
            let w = words(s)[1];
            &&& (w == "intersect"@ || w == "i"@ || w == "&&"@ || w == "&"@) ==> command_of(s)
                == CommandView::Filter(FilterView::Intersect)
            &&& (w == "union"@ || w == "u"@ || w == "||"@ || w == "|"@) ==> command_of(s) == CommandView::Filter(
                FilterView::Union,
            )
        }),
{
    reveal_strlit("filter");
    reveal_strlit("quit");
    reveal_strlit("q");
    reveal_strlit("mcap");
    reveal_strlit("readlink");
    reveal_strlit("realpath");
    reveal_strlit("rl");
    reveal_strlit("rp");
    reveal_strlit("refresh");
    reveal_strlit("open");
    reveal_strlit("o");
    reveal_strlit("pb");
    reveal_strlit("pbcopy");
    reveal_strlit("close");
    reveal_strlit("c");
    reveal_strlit("gutter");
    reveal_strlit("g");
    reveal_strlit("mux");
    reveal_strlit("m");
    reveal_strlit("link");
    reveal_strlit("persist");
    reveal_strlit("copy");
    reveal_strlit("save");
    reveal_strlit("load");
    reveal_strlit("clear");
    reveal_strlit("union");
    reveal_strlit("u");
    reveal_strlit("||");
    reveal_strlit("|");
    reveal_strlit("intersect");
    reveal_strlit("i");
    reveal_strlit("&&");
    reveal_strlit("&");
    let w = words(s);
    assert(w.skip(1)[0] == w[1]);
    assert("filter"@ != "quit"@) by { assert("filter"@.len() != "quit"@.len() || "filter"@[0] != "quit"@[0] || "filter"@[1] != "quit"@[1]); }
    assert("filter"@ != "q"@) by { assert("filter"@.len() != "q"@.len() || "filter"@[0] != "q"@[0] || "filter"@[1] != "q"@[1]); }
    assert("filter"@ != "mcap"@) by { assert("filter"@.len() != "mcap"@.len() || "filter"@[0] != "mcap"@[0] || "filter"@[1] != "mcap"@[1]); }
    assert("filter"@ != "readlink"@) by { assert("filter"@.len() != "readlink"@.len() || "filter"@[0] != "readlink"@[0] || "filter"@[1] != "readlink"@[1]); }
    assert("filter"@ != "realpath"@) by { assert("filter"@.len() != "realpath"@.len() || "filter"@[0] != "realpath"@[0] || "filter"@[1] != "realpath"@[1]); }
    assert("filter"@ != "rl"@) by { assert("filter"@.len() != "rl"@.len() || "filter"@[0] != "rl"@[0] || "filter"@[1] != "rl"@[1]); }
    assert("filter"@ != "rp"@) by { assert("filter"@.len() != "rp"@.len() || "filter"@[0] != "rp"@[0] || "filter"@[1] != "rp"@[1]); }
    assert("filter"@ != "refresh"@) by { assert("filter"@.len() != "refresh"@.len() || "filter"@[0] != "refresh"@[0] || "filter"@[1] != "refresh"@[1]); }
    assert("filter"@ != "open"@) by { assert("filter"@.len() != "open"@.len() || "filter"@[0] != "open"@[0] || "filter"@[1] != "open"@[1]); }
    assert("filter"@ != "o"@) by { assert("filter"@.len() != "o"@.len() || "filter"@[0] != "o"@[0] || "filter"@[1] != "o"@[1]); }
    assert("filter"@ != "pb"@) by { assert("filter"@.len() != "pb"@.len() || "filter"@[0] != "pb"@[0] || "filter"@[1] != "pb"@[1]); }
    assert("filter"@ != "pbcopy"@) by { assert("filter"@.len() != "pbcopy"@.len() || "filter"@[0] != "pbcopy"@[0] || "filter"@[1] != "pbcopy"@[1]); }
    assert("filter"@ != "close"@) by { assert("filter"@.len() != "close"@.len() || "filter"@[0] != "close"@[0] || "filter"@[1] != "close"@[1]); }
    assert("filter"@ != "c"@) by { assert("filter"@.len() != "c"@.len() || "filter"@[0] != "c"@[0] || "filter"@[1] != "c"@[1]); }
    assert("filter"@ != "gutter"@) by { assert("filter"@.len() != "gutter"@.len() || "filter"@[0] != "gutter"@[0] || "filter"@[1] != "gutter"@[1]); }
    assert("filter"@ != "g"@) by { assert("filter"@.len() != "g"@.len() || "filter"@[0] != "g"@[0] || "filter"@[1] != "g"@[1]); }
    assert("filter"@ != "mux"@) by { assert("filter"@.len() != "mux"@.len() || "filter"@[0] != "mux"@[0] || "filter"@[1] != "mux"@[1]); }
    assert("filter"@ != "m"@) by { assert("filter"@.len() != "m"@.len() || "filter"@[0] != "m"@[0] || "filter"@[1] != "m"@[1]); }
    assert("intersect"@ != "link"@) by { assert("intersect"@.len() != "link"@.len() || "intersect"@[0] != "link"@[0]); }
    assert("intersect"@ != "persist"@) by { assert("intersect"@.len() != "persist"@.len() || "intersect"@[0] != "persist"@[0]); }
    assert("intersect"@ != "copy"@) by { assert("intersect"@.len() != "copy"@.len() || "intersect"@[0] != "copy"@[0]); }
    assert("intersect"@ != "c"@) by { assert("intersect"@.len() != "c"@.len() || "intersect"@[0] != "c"@[0]); }
    assert("intersect"@ != "save"@) by { assert("intersect"@.len() != "save"@.len() || "intersect"@[0] != "save"@[0]); }
    assert("intersect"@ != "load"@) by { assert("intersect"@.len() != "load"@.len() || "intersect"@[0] != "load"@[0]); }
    assert("intersect"@ != "clear"@) by { assert("intersect"@.len() != "clear"@.len() || "intersect"@[0] != "clear"@[0]); }
    assert("intersect"@ != "union"@) by { assert("intersect"@.len() != "union"@.len() || "intersect"@[0] != "union"@[0]); }
    assert("intersect"@ != "u"@) by { assert("intersect"@.len() != "u"@.len() || "intersect"@[0] != "u"@[0]); }
    assert("intersect"@ != "||"@) by { assert("intersect"@.len() != "||"@.len() || "intersect"@[0] != "||"@[0]); }
    assert("intersect"@ != "|"@) by { assert("intersect"@.len() != "|"@.len() || "intersect"@[0] != "|"@[0]); }
    assert("i"@ != "link"@) by { assert("i"@.len() != "link"@.len() || "i"@[0] != "link"@[0]); }
    assert("i"@ != "persist"@) by { assert("i"@.len() != "persist"@.len() || "i"@[0] != "persist"@[0]); }
    assert("i"@ != "copy"@) by { assert("i"@.len() != "copy"@.len() || "i"@[0] != "copy"@[0]); }
    assert("i"@ != "c"@) by { assert("i"@.len() != "c"@.len() || "i"@[0] != "c"@[0]); }
    assert("i"@ != "save"@) by { assert("i"@.len() != "save"@.len() || "i"@[0] != "save"@[0]); }
    assert("i"@ != "load"@) by { assert("i"@.len() != "load"@.len() || "i"@[0] != "load"@[0]); }
    assert("i"@ != "clear"@) by { assert("i"@.len() != "clear"@.len() || "i"@[0] != "clear"@[0]); }
    assert("i"@ != "union"@) by { assert("i"@.len() != "union"@.len() || "i"@[0] != "union"@[0]); }
    assert("i"@ != "u"@) by { assert("i"@.len() != "u"@.len() || "i"@[0] != "u"@[0]); }
    assert("i"@ != "||"@) by { assert("i"@.len() != "||"@.len() || "i"@[0] != "||"@[0]); }
    assert("i"@ != "|"@) by { assert("i"@.len() != "|"@.len() || "i"@[0] != "|"@[0]); }
    assert("&&"@ != "link"@) by { assert("&&"@.len() != "link"@.len() || "&&"@[0] != "link"@[0]); }
    assert("&&"@ != "persist"@) by { assert("&&"@.len() != "persist"@.len() || "&&"@[0] != "persist"@[0]); }
    assert("&&"@ != "copy"@) by { assert("&&"@.len() != "copy"@.len() || "&&"@[0] != "copy"@[0]); }
    assert("&&"@ != "c"@) by { assert("&&"@.len() != "c"@.len() || "&&"@[0] != "c"@[0]); }
    assert("&&"@ != "save"@) by { assert("&&"@.len() != "save"@.len() || "&&"@[0] != "save"@[0]); }
    assert("&&"@ != "load"@) by { assert("&&"@.len() != "load"@.len() || "&&"@[0] != "load"@[0]); }
    assert("&&"@ != "clear"@) by { assert("&&"@.len() != "clear"@.len() || "&&"@[0] != "clear"@[0]); }
    assert("&&"@ != "union"@) by { assert("&&"@.len() != "union"@.len() || "&&"@[0] != "union"@[0]); }
    assert("&&"@ != "u"@) by { assert("&&"@.len() != "u"@.len() || "&&"@[0] != "u"@[0]); }
    assert("&&"@ != "||"@) by { assert("&&"@.len() != "||"@.len() || "&&"@[0] != "||"@[0]); }
    assert("&&"@ != "|"@) by { assert("&&"@.len() != "|"@.len() || "&&"@[0] != "|"@[0]); }
    assert("&"@ != "link"@) by { assert("&"@.len() != "link"@.len() || "&"@[0] != "link"@[0]); }
    assert("&"@ != "persist"@) by { assert("&"@.len() != "persist"@.len() || "&"@[0] != "persist"@[0]); }
    assert("&"@ != "copy"@) by { assert("&"@.len() != "copy"@.len() || "&"@[0] != "copy"@[0]); }
    assert("&"@ != "c"@) by { assert("&"@.len() != "c"@.len() || "&"@[0] != "c"@[0]); }
    assert("&"@ != "save"@) by { assert("&"@.len() != "save"@.len() || "&"@[0] != "save"@[0]); }
    assert("&"@ != "load"@) by { assert("&"@.len() != "load"@.len() || "&"@[0] != "load"@[0]); }
    assert("&"@ != "clear"@) by { assert("&"@.len() != "clear"@.len() || "&"@[0] != "clear"@[0]); }
    assert("&"@ != "union"@) by { assert("&"@.len() != "union"@.len() || "&"@[0] != "union"@[0]); }
    assert("&"@ != "u"@) by { assert("&"@.len() != "u"@.len() || "&"@[0] != "u"@[0]); }
    assert("&"@ != "||"@) by { assert("&"@.len() != "||"@.len() || "&"@[0] != "||"@[0]); }
    assert("&"@ != "|"@) by { assert("&"@.len() != "|"@.len() || "&"@[0] != "|"@[0]); }
    assert("union"@ != "link"@) by { assert("union"@.len() != "link"@.len() || "union"@[0] != "link"@[0]); }
    assert("union"@ != "persist"@) by { assert("union"@.len() != "persist"@.len() || "union"@[0] != "persist"@[0]); }
    assert("union"@ != "copy"@) by { assert("union"@.len() != "copy"@.len() || "union"@[0] != "copy"@[0]); }
    assert("union"@ != "c"@) by { assert("union"@.len() != "c"@.len() || "union"@[0] != "c"@[0]); }
    assert("union"@ != "save"@) by { assert("union"@.len() != "save"@.len() || "union"@[0] != "save"@[0]); }
    assert("union"@ != "load"@) by { assert("union"@.len() != "load"@.len() || "union"@[0] != "load"@[0]); }
    assert("union"@ != "clear"@) by { assert("union"@.len() != "clear"@.len() || "union"@[0] != "clear"@[0]); }
    assert("u"@ != "link"@) by { assert("u"@.len() != "link"@.len() || "u"@[0] != "link"@[0]); }
    assert("u"@ != "persist"@) by { assert("u"@.len() != "persist"@.len() || "u"@[0] != "persist"@[0]); }
    assert("u"@ != "copy"@) by { assert("u"@.len() != "copy"@.len() || "u"@[0] != "copy"@[0]); }
    assert("u"@ != "c"@) by { assert("u"@.len() != "c"@.len() || "u"@[0] != "c"@[0]); }
    assert("u"@ != "save"@) by { assert("u"@.len() != "save"@.len() || "u"@[0] != "save"@[0]); }
    assert("u"@ != "load"@) by { assert("u"@.len() != "load"@.len() || "u"@[0] != "load"@[0]); }
    assert("u"@ != "clear"@) by { assert("u"@.len() != "clear"@.len() || "u"@[0] != "clear"@[0]); }
    assert("||"@ != "link"@) by { assert("||"@.len() != "link"@.len() || "||"@[0] != "link"@[0]); }
    assert("||"@ != "persist"@) by { assert("||"@.len() != "persist"@.len() || "||"@[0] != "persist"@[0]); }
    assert("||"@ != "copy"@) by { assert("||"@.len() != "copy"@.len() || "||"@[0] != "copy"@[0]); }
    assert("||"@ != "c"@) by { assert("||"@.len() != "c"@.len() || "||"@[0] != "c"@[0]); }
    assert("||"@ != "save"@) by { assert("||"@.len() != "save"@.len() || "||"@[0] != "save"@[0]); }
    assert("||"@ != "load"@) by { assert("||"@.len() != "load"@.len() || "||"@[0] != "load"@[0]); }
    assert("||"@ != "clear"@) by { assert("||"@.len() != "clear"@.len() || "||"@[0] != "clear"@[0]); }
    assert("|"@ != "link"@) by { assert("|"@.len() != "link"@.len() || "|"@[0] != "link"@[0]); }
    assert("|"@ != "persist"@) by { assert("|"@.len() != "persist"@.len() || "|"@[0] != "persist"@[0]); }
    assert("|"@ != "copy"@) by { assert("|"@.len() != "copy"@.len() || "|"@[0] != "copy"@[0]); }
    assert("|"@ != "c"@) by { assert("|"@.len() != "c"@.len() || "|"@[0] != "c"@[0]); }
    assert("|"@ != "save"@) by { assert("|"@.len() != "save"@.len() || "|"@[0] != "save"@[0]); }
    assert("|"@ != "load"@) by { assert("|"@.len() != "load"@.len() || "|"@[0] != "load"@[0]); }
    assert("|"@ != "clear"@) by { assert("|"@.len() != "clear"@.len() || "|"@[0] != "clear"@[0]); }
}

} // verus!
