//! The line-oriented command parser.
//!
//! A comment is split into lines (`\n` or `\r\n` both end a line); a line that
//! starts with the exact prefix `@<bot> ` for some recognized bot name yields
//! one command record, whose `command` is the text up to the first space after
//! the prefix and whose `args` is everything after that space.

use vstd::prelude::*;
use vstd::string::*;

verus! {

/// One recognized bot invocation, as parsed out of a single comment line.
#[derive(PartialEq, Debug)]
pub struct BotCommand {
    pub command: String,
    pub args: String,
    pub bot: String,
}

/// The mathematical value of a [`BotCommand`]: its three fields as
/// character sequences.
pub ghost struct CommandModel {
    pub command: Seq<char>,
    pub args: Seq<char>,
    pub bot: Seq<char>,
}

impl View for BotCommand {
    type V = CommandModel;

    open spec fn view(&self) -> CommandModel {
        CommandModel { command: self.command@, args: self.args@, bot: self.bot@ }
    }
}

impl DeepView for BotCommand {
    type V = CommandModel;

    open spec fn deep_view(&self) -> CommandModel {
        self@
    }
}

/// Index of the first occurrence of `c` in `s`, or `s.len()` if `c` does not
/// occur.
pub open spec fn find_char(s: Seq<char>, c: char) -> nat
    decreases s.len(),
{
    if s.len() == 0 {
        0
    } else if s[0] == c {
        0
    } else {
        1 + find_char(s.drop_first(), c)
    }
}

/// Any index `j` that is preceded only by non-`c` characters and that either
/// is the length or holds `c` is exactly `find_char`'s result.
pub proof fn lemma_find_char_at(s: Seq<char>, c: char, j: int)
    requires
        0 <= j <= s.len(),
        forall|k: int| 0 <= k < j ==> s[k] != c,
        j == s.len() || s[j] == c,
    ensures
        find_char(s, c) == j,
    decreases s.len(),
{
    if j == 0 {
    } else {
        assert(s[0] != c);
        lemma_find_char_at(s.drop_first(), c, j - 1);
    }
}

/// Remove a single trailing carriage return, if present.
pub open spec fn strip_cr(line: Seq<char>) -> Seq<char> {
    if line.len() > 0 && line.last() == '\r' {
        line.drop_last()
    } else {
        line
    }
}

/// The lines of `text`, in document order: `\n` ends a line, a `\r`
/// immediately before the `\n` is dropped, and a final line without a
/// terminator is kept whole.
pub open spec fn split_lines(text: Seq<char>) -> Seq<Seq<char>>
    decreases text.len(),
{
    if text.len() == 0 {
        Seq::empty()
    } else {
        let i = find_char(text, '\n');
        if i >= text.len() {
            seq![text]
        } else {
            seq![strip_cr(text.subrange(0, i as int))] + split_lines(
                text.subrange(i as int + 1, text.len() as int),
            )
        }
    }
}

/// The prefix a line must carry to address `bot`: `@`, the bot name, one space.
pub open spec fn bot_prefix(bot: Seq<char>) -> Seq<char> {
    seq!['@'] + bot + seq![' ']
}

/// Whether `line` addresses `bot`: it starts with the exact prefix `@<bot> `.
pub open spec fn line_matches(line: Seq<char>, bot: Seq<char>) -> bool {
    line.len() >= bot_prefix(bot).len() && line.subrange(0, bot_prefix(bot).len() as int)
        == bot_prefix(bot)
}

/// Split `rest` at its first space into a command token and an argument
/// string; with no space, the whole of `rest` is the command and the
/// arguments are empty.
pub open spec fn split_first_space(rest: Seq<char>) -> (Seq<char>, Seq<char>) {
    let j = find_char(rest, ' ');
    if j >= rest.len() {
        (rest, Seq::empty())
    } else {
        (rest.subrange(0, j as int), rest.subrange(j as int + 1, rest.len() as int))
    }
}

/// The record a matching `line` yields for `bot`.
pub open spec fn command_of(line: Seq<char>, bot: Seq<char>) -> CommandModel
    recommends
        line_matches(line, bot),
{
    let rest = line.subrange(bot_prefix(bot).len() as int, line.len() as int);
    CommandModel {
        command: split_first_space(rest).0,
        args: split_first_space(rest).1,
        bot: bot,
    }
}

/// What one line contributes to the output for one bot: one record if it
/// matches, nothing otherwise.
pub open spec fn line_contribution(line: Seq<char>, bot: Seq<char>) -> Seq<CommandModel> {
    if line_matches(line, bot) {
        seq![command_of(line, bot)]
    } else {
        Seq::empty()
    }
}

/// All records that `lines` yield for a single `bot`, in document order.
pub open spec fn commands_for_bot(lines: Seq<Seq<char>>, bot: Seq<char>) -> Seq<CommandModel>
    decreases lines.len(),
{
    if lines.len() == 0 {
        Seq::empty()
    } else {
        commands_for_bot(lines.drop_last(), bot) + line_contribution(lines.last(), bot)
    }
}

/// All records for all bots: every record of an earlier bot precedes every
/// record of a later one, and within one bot the records follow document
/// order.
pub open spec fn commands_spec(lines: Seq<Seq<char>>, bots: Seq<Seq<char>>) -> Seq<CommandModel>
    decreases bots.len(),
{
    if bots.len() == 0 {
        Seq::empty()
    } else {
        commands_spec(lines, bots.drop_last()) + commands_for_bot(lines, bots.last())
    }
}

/// The full parse: split `text` into lines, then collect every bot's records.
pub open spec fn parse_commands_spec(text: Seq<char>, bots: Seq<Seq<char>>) -> Seq<CommandModel> {
    commands_spec(split_lines(text), bots)
}

/// Character-for-character string equality, decided against the views.
pub fn str_eq(a: &str, b: &str) -> (r: bool)
    ensures
        r == (a@ == b@),
{
    let n = a.unicode_len();
    if n != b.unicode_len() {
        return false;
    }
    let mut i: usize = 0;
    while i < n
        invariant
            n == a@.len(),
            n == b@.len(),
            i <= n,
            forall|k: int| 0 <= k < i ==> a@[k] == b@[k],
        decreases n - i,
    {
        if a.get_char(i) != b.get_char(i) {
            return false;
        }
        i += 1;
    }
    proof {
        assert(a@ =~= b@);
    }
    true
}

/// Split `text` into its lines, exactly as [`split_lines`] describes.
fn split_lines_exec(text: &str) -> (r: Vec<String>)
    ensures
        r.deep_view() == split_lines(text@),
{
    let n = text.unicode_len();
    let mut r: Vec<String> = Vec::new();
    let mut pos: usize = 0;
    proof {
        assert(text@.subrange(0, n as int) =~= text@);
        assert(r.deep_view() + split_lines(text@) =~= split_lines(text@));
    }
    while pos < n
        invariant
            n == text@.len(),
            pos <= n,
            r.deep_view() + split_lines(text@.subrange(pos as int, n as int)) == split_lines(
                text@,
            ),
        decreases n - pos,
    {
        let ghost sub = text@.subrange(pos as int, n as int);
        let mut j: usize = pos;
        while j < n && text.get_char(j) != '\n'
            invariant
                n == text@.len(),
                pos <= j <= n,
                forall|k: int| pos <= k < j ==> text@[k] != '\n',
            decreases n - j,
        {
            j += 1;
        }
        proof {
            assert forall|k: int| 0 <= k < j - pos implies sub[k] != '\n' by {
                assert(sub[k] == text@[pos + k]);
            }
            lemma_find_char_at(sub, '\n', j - pos as int);
        }
        let ghost prev = r.deep_view();
        if j == n {
            let line = text.substring_char(pos, n);
            let owned = line.to_owned();
            proof {
                assert(split_lines(sub) =~= seq![sub]);
            }
            r.push(owned);
            pos = n;
            proof {
                assert(r.deep_view() =~= prev.push(sub));
                assert(prev.push(sub) =~= prev + seq![sub]);
                assert(split_lines(text@.subrange(n as int, n as int)) =~= Seq::<Seq<char>>::empty());
                assert(r.deep_view() + split_lines(text@.subrange(n as int, n as int)) =~= prev
                    + split_lines(sub));
            }
        } else {
            let line_end: usize = if j > pos && text.get_char(j - 1) == '\r' {
                j - 1
            } else {
                j
            };
            let line = text.substring_char(pos, line_end);
            let owned = line.to_owned();
            let ghost chunk = sub.subrange(0, j - pos as int);
            let ghost tail = sub.subrange(j - pos as int + 1, sub.len() as int);
            proof {
                assert(chunk =~= text@.subrange(pos as int, j as int));
                if line_end < j {
                    assert(chunk.last() == '\r');
                    assert(strip_cr(chunk) =~= text@.subrange(pos as int, line_end as int));
                } else {
                    if chunk.len() > 0 {
                        assert(chunk.last() == text@[j - 1]);
                    }
                    assert(strip_cr(chunk) =~= text@.subrange(pos as int, line_end as int));
                }
                assert(tail =~= text@.subrange(j as int + 1, n as int));
                assert(split_lines(sub) == seq![strip_cr(chunk)] + split_lines(tail));
            }
            r.push(owned);
            pos = j + 1;
            proof {
                assert(r.deep_view() =~= prev.push(strip_cr(chunk)));
                assert(prev.push(strip_cr(chunk)) + split_lines(
                    text@.subrange(pos as int, n as int),
                ) =~= prev + split_lines(sub));
            }
        }
    }
    proof {
        assert(split_lines(text@.subrange(pos as int, n as int)) =~= Seq::empty());
        assert(r.deep_view() =~= split_lines(text@));
    }
    r
}

/// Decide whether `line` starts with the prefix `@<bot> `.
fn line_matches_exec(line: &str, bot: &str) -> (r: bool)
    ensures
        r == line_matches(line@, bot@),
{
    let llen = line.unicode_len();
    let blen = bot.unicode_len();
    proof {
        assert(bot_prefix(bot@).len() == blen + 2);
    }
    if llen < 2 || llen - 2 < blen {
        return false;
    }
    if line.get_char(0) != '@' {
        proof {
            assert(bot_prefix(bot@)[0] == '@');
            assert(line_matches(line@, bot@) ==> line@.subrange(0, blen + 2)[0] == '@');
        }
        return false;
    }
    let mut k: usize = 0;
    while k < blen
        invariant
            llen == line@.len(),
            blen == bot@.len(),
            blen + 2 <= llen,
            k <= blen,
            forall|i: int| 0 <= i < k ==> line@[1 + i] == bot@[i],
        decreases blen - k,
    {
        if line.get_char(1 + k) != bot.get_char(k) {
            proof {
                assert(bot_prefix(bot@)[1 + k] == bot@[k as int]);
                assert(line_matches(line@, bot@) ==> line@.subrange(0, blen + 2)[1 + k] == bot_prefix(
                    bot@,
                )[1 + k]);
            }
            return false;
        }
        k += 1;
    }
    if line.get_char(blen + 1) != ' ' {
        proof {
            assert(bot_prefix(bot@)[blen + 1] == ' ');
            assert(line_matches(line@, bot@) ==> line@.subrange(0, blen + 2)[blen + 1]
                == bot_prefix(bot@)[blen + 1]);
        }
        return false;
    }
    proof {
        assert forall|i: int| 0 <= i < blen + 2 implies line@.subrange(0, blen + 2)[i]
            == bot_prefix(bot@)[i] by {
            if i == 0 {
                assert(bot_prefix(bot@)[0] == '@');
            } else if i < blen + 1 {
                assert(bot_prefix(bot@)[i] == bot@[i - 1]);
                assert(line@[1 + (i - 1)] == bot@[i - 1]);
            } else {
                assert(bot_prefix(bot@)[i] == ' ');
            }
        }
        assert(line@.subrange(0, blen + 2) =~= bot_prefix(bot@));
    }
    true
}

/// Parse the command and arguments out of a line known to address `bot`.
fn command_of_exec(line: &str, bot: &String) -> (r: BotCommand)
    requires
        line_matches(line@, bot@),
    ensures
        r@ == command_of(line@, bot@),
{
    let llen = line.unicode_len();
    let blen = bot.as_str().unicode_len();
    proof {
        assert(bot_prefix(bot@).len() == blen + 2);
    }
    let start = blen + 2;
    let ghost rest = line@.subrange(start as int, llen as int);
    let mut j: usize = start;
    while j < llen && line.get_char(j) != ' '
        invariant
            llen == line@.len(),
            start <= j <= llen,
            forall|k: int| start <= k < j ==> line@[k] != ' ',
        decreases llen - j,
    {
        j += 1;
    }
    proof {
        assert forall|k: int| 0 <= k < j - start implies rest[k] != ' ' by {
            assert(rest[k] == line@[start + k]);
        }
        lemma_find_char_at(rest, ' ', j - start as int);
    }
    if j < llen {
        let command = line.substring_char(start, j);
        let args = line.substring_char(j + 1, llen);
        proof {
            assert(rest.subrange(0, j - start as int) =~= line@.subrange(start as int, j as int));
            assert(rest.subrange(j - start as int + 1, rest.len() as int) =~= line@.subrange(
                j as int + 1,
                llen as int,
            ));
        }
        BotCommand { command: command.to_owned(), args: args.to_owned(), bot: bot.clone() }
    } else {
        let command = line.substring_char(start, llen);
        BotCommand { command: command.to_owned(), args: String::new(), bot: bot.clone() }
    }
}

/// Scan `text` for lines of the form `@<bot> <command> <args>` and return one
/// record per recognized line: all records of an earlier bot name before any
/// of a later one, records of one bot in document order.
pub fn parse_commands(text: &str, bots: &Vec<String>) -> (r: Vec<BotCommand>)
    ensures
        r.deep_view() == parse_commands_spec(text@, bots.deep_view()),
{
    let lines = split_lines_exec(text);
    let ghost lines_m = split_lines(text@);
    let ghost bots_m = bots.deep_view();
    let mut r: Vec<BotCommand> = Vec::new();
    proof {
        assert(bots_m.take(0) =~= Seq::<Seq<char>>::empty());
        assert(r.deep_view() =~= commands_spec(lines_m, bots_m.take(0)));
    }
    let mut bi: usize = 0;
    while bi < bots.len()
        invariant
            lines.deep_view() == lines_m,
            lines_m == split_lines(text@),
            bots_m == bots.deep_view(),
            bots.len() == bots_m.len(),
            bi <= bots.len(),
            r.deep_view() == commands_spec(lines_m, bots_m.take(bi as int)),
        decreases bots.len() - bi,
    {
        let ghost bot_m = bots_m[bi as int];
        proof {
            assert(lines_m.take(0) =~= Seq::<Seq<char>>::empty());
            assert(commands_for_bot(lines_m.take(0), bot_m) =~= Seq::<CommandModel>::empty());
            assert(r.deep_view() + commands_for_bot(lines_m.take(0), bot_m) =~= r.deep_view());
        }
        let ghost before_bot = r.deep_view();
        let mut li: usize = 0;
        while li < lines.len()
            invariant
                lines.deep_view() == lines_m,
                bots_m == bots.deep_view(),
                bi < bots_m.len(),
                bi < bots.len(),
                bot_m == bots_m[bi as int],
                li <= lines.len(),
                lines.len() == lines_m.len(),
                r.deep_view() == before_bot + commands_for_bot(lines_m.take(li as int), bot_m),
            decreases lines.len() - li,
        {
            let ghost line_m = lines_m[li as int];
            let ghost prev = r.deep_view();
            proof {
                assert(lines[li as int]@ == line_m);
                assert(bots[bi as int]@ == bot_m);
            }
            if line_matches_exec(lines[li].as_str(), bots[bi].as_str()) {
                let cmd = command_of_exec(lines[li].as_str(), &bots[bi]);
                r.push(cmd);
                proof {
                    assert(r.deep_view() =~= prev.push(command_of(line_m, bot_m)));
                    assert(line_contribution(line_m, bot_m) == seq![command_of(line_m, bot_m)]);
                }
            } else {
                proof {
                    assert(line_contribution(line_m, bot_m) =~= Seq::<CommandModel>::empty());
                }
            }
            proof {
                assert(lines_m.take(li + 1).drop_last() =~= lines_m.take(li as int));
                assert(lines_m.take(li + 1).last() == line_m);
                assert(commands_for_bot(lines_m.take(li + 1), bot_m) == commands_for_bot(
                    lines_m.take(li as int),
                    bot_m,
                ) + line_contribution(line_m, bot_m));
                assert(r.deep_view() =~= before_bot + commands_for_bot(
                    lines_m.take(li + 1),
                    bot_m,
                ));
            }
            li += 1;
        }
        proof {
            assert(lines_m.take(lines_m.len() as int) =~= lines_m);
            assert(bots_m.take(bi + 1).drop_last() =~= bots_m.take(bi as int));
            assert(bots_m.take(bi + 1).last() == bot_m);
            assert(commands_spec(lines_m, bots_m.take(bi + 1)) == commands_spec(
                lines_m,
                bots_m.take(bi as int),
            ) + commands_for_bot(lines_m, bot_m));
        }
        bi += 1;
    }
    proof {
        assert(bots_m.take(bots_m.len() as int) =~= bots_m);
    }
    r
}

/// Determinism: the parse is a function of the text and the bot list alone,
/// so any two results obtained from identical inputs are identical, record
/// for record and in the same order.
pub proof fn lemma_parse_deterministic(
    text: Seq<char>,
    bots: Seq<Seq<char>>,
    r1: Seq<CommandModel>,
    r2: Seq<CommandModel>,
)
    requires
        r1 == parse_commands_spec(text, bots),
        r2 == parse_commands_spec(text, bots),
    ensures
        r1 == r2,
        r1.len() == r2.len(),
        forall|i: int| 0 <= i < r1.len() ==> r1[i] == r2[i],
{
}

/// A line that does not address `bot` leaves that bot's records unchanged:
/// removing it from the line list removes nothing from the output.
pub proof fn lemma_nonmatching_line_for_bot(lines: Seq<Seq<char>>, bot: Seq<char>, i: int)
    requires
        0 <= i < lines.len(),
        !line_matches(lines[i], bot),
    ensures
        commands_for_bot(lines, bot) == commands_for_bot(lines.remove(i), bot),
    decreases lines.len(),
{
    if i == lines.len() - 1 {
        assert(lines.remove(i) =~= lines.drop_last());
        assert(line_contribution(lines.last(), bot) =~= Seq::<CommandModel>::empty());
        assert(commands_for_bot(lines.drop_last(), bot) + Seq::<CommandModel>::empty()
            =~= commands_for_bot(lines.drop_last(), bot));
    } else {
        assert(lines.drop_last()[i] == lines[i]);
        lemma_nonmatching_line_for_bot(lines.drop_last(), bot, i);
        assert(lines.remove(i).drop_last() =~= lines.drop_last().remove(i));
        assert(lines.remove(i).last() == lines.last());
        assert(lines.remove(i).len() > 0);
        assert(commands_for_bot(lines.remove(i), bot) == commands_for_bot(
            lines.remove(i).drop_last(),
            bot,
        ) + line_contribution(lines.remove(i).last(), bot));
    }
}

/// A line that addresses no bot in the list contributes zero records:
/// removing it from the line list leaves the whole output unchanged.
pub proof fn lemma_nonmatching_line_no_records(lines: Seq<Seq<char>>, bots: Seq<Seq<char>>, i: int)
    requires
        0 <= i < lines.len(),
        forall|k: int| 0 <= k < bots.len() ==> !line_matches(lines[i], #[trigger] bots[k]),
    ensures
        commands_spec(lines, bots) == commands_spec(lines.remove(i), bots),
    decreases bots.len(),
{
    if bots.len() == 0 {
    } else {
        assert(forall|k: int| 0 <= k < bots.drop_last().len() ==> !line_matches(
            lines[i],
            #[trigger] bots.drop_last()[k],
        ));
        lemma_nonmatching_line_no_records(lines, bots.drop_last(), i);
        assert(bots.last() == bots[bots.len() - 1]);
        lemma_nonmatching_line_for_bot(lines, bots.last(), i);
    }
}

} // verus!
