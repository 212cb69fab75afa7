use vstd::prelude::*;

use crate::bot::Notification;
use crate::db::GenkaiError;
use crate::model::UserStat;

verus! {

/// What a chat message asks of the bot.
#[derive(Clone, Copy, Debug, PartialEq, Eq, Structural)]
pub enum Command {
    /// The message is not addressed to the bot: it does not start with the
    /// `g!point` prefix.
    NotForMe,
    /// The per-user summary.
    Show,
    /// The leaderboard by points.
    RankingByPoint,
    /// The leaderboard by total voice duration.
    RankingByDuration,
    /// The help listing, also the fallback for unrecognized subcommands.
    Help,
}

/// ASCII whitespace, as `split_ascii_whitespace` sees it.
pub open spec fn is_ws(b: u8) -> bool {
    b == 32 || b == 9 || b == 10 || b == 13 || b == 12
}

/// The whitespace-delimited tokens of `s`, with `cur` the (possibly empty)
/// token under construction.
pub open spec fn tokens_acc(s: Seq<u8>, cur: Seq<u8>) -> Seq<Seq<u8>>
    decreases s.len(),
{
    if s.len() == 0 {
        if cur.len() == 0 {
            Seq::empty()
        } else {
            seq![cur]
        }
    } else if is_ws(s[0]) {
        if cur.len() == 0 {
            tokens_acc(s.drop_first(), Seq::empty())
        } else {
            seq![cur] + tokens_acc(s.drop_first(), Seq::empty())
        }
    } else {
        tokens_acc(s.drop_first(), cur.push(s[0]))
    }
}

/// The maximal runs of non-whitespace bytes of `s`, in order.
pub open spec fn tokens_of(s: Seq<u8>) -> Seq<Seq<u8>> {
    tokens_acc(s, Seq::empty())
}

/// Splits a message into its ASCII-whitespace-delimited tokens.
pub fn tokenize(content: &Vec<u8>) -> (r: Vec<Vec<u8>>)
    ensures
        r@.map_values(|t: Vec<u8>| t@) == tokens_of(content@),
{
    let mut out: Vec<Vec<u8>> = Vec::new();
    let mut cur: Vec<u8> = Vec::new();
    let mut i: usize = 0;
    proof {
        assert(content@.skip(0) =~= content@);
        assert(out@.map_values(|t: Vec<u8>| t@) =~= Seq::<Seq<u8>>::empty());
        assert(cur@ =~= Seq::<u8>::empty());
        assert(Seq::<Seq<u8>>::empty() + tokens_acc(content@, Seq::<u8>::empty()) =~= tokens_acc(
            content@,
            Seq::<u8>::empty(),
        ));
    }
    while i < content.len()
        invariant
            i <= content@.len(),
            tokens_of(content@) == out@.map_values(|t: Vec<u8>| t@) + tokens_acc(
                content@.skip(i as int),
                cur@,
            ),
        decreases content@.len() - i,
    {
        let ghost rest = content@.skip(i as int);
        proof {
            assert(rest.len() > 0);
            assert(rest[0] == content@[i as int]);
            assert(rest.drop_first() =~= content@.skip(i as int + 1));
        }
        let b = content[i];
        if b == 32 || b == 9 || b == 10 || b == 13 || b == 12 {
            if cur.len() > 0 {
                let ghost out_pre = out@;
                let ghost cur_pre = cur@;
                proof {
                    assert(is_ws(rest[0]));
                    assert(tokens_acc(rest, cur_pre) == seq![cur_pre] + tokens_acc(
                        content@.skip(i as int + 1),
                        Seq::<u8>::empty(),
                    ));
                }
                out.push(cur);
                cur = Vec::new();
                proof {
                    assert(cur@ =~= Seq::<u8>::empty());
                    assert(out@.map_values(|t: Vec<u8>| t@) =~= out_pre.map_values(
                        |t: Vec<u8>| t@,
                    ).push(cur_pre));
                    assert(out@.map_values(|t: Vec<u8>| t@) + tokens_acc(
                        content@.skip(i as int + 1),
                        Seq::<u8>::empty(),
                    ) =~= out_pre.map_values(|t: Vec<u8>| t@) + (seq![cur_pre] + tokens_acc(
                        content@.skip(i as int + 1),
                        Seq::<u8>::empty(),
                    )));
                }
            } else {
                proof {
                    assert(is_ws(rest[0]));
                    assert(cur@ =~= Seq::<u8>::empty());
                    assert(tokens_acc(rest, cur@) == tokens_acc(
                        content@.skip(i as int + 1),
                        Seq::<u8>::empty(),
                    ));
                }
            }
        } else {
            let ghost cur_pre = cur@;
            cur.push(b);
            proof {
                assert(!is_ws(rest[0]));
                assert(cur@ == cur_pre.push(b));
                assert(tokens_acc(rest, cur_pre) == tokens_acc(
                    content@.skip(i as int + 1),
                    cur@,
                ));
            }
        }
        i = i + 1;
    }
    proof {
        assert(content@.skip(content@.len() as int) =~= Seq::<u8>::empty());
    }
    if cur.len() > 0 {
        let ghost out_pre = out@;
        let ghost cur_pre = cur@;
        out.push(cur);
        proof {
            assert(out@.map_values(|t: Vec<u8>| t@) =~= out_pre.map_values(|t: Vec<u8>| t@).push(
                cur_pre,
            ));
            assert(out_pre.map_values(|t: Vec<u8>| t@) + seq![cur_pre] =~= out@.map_values(
                |t: Vec<u8>| t@,
            ));
        }
    } else {
        proof {
            assert(out@.map_values(|t: Vec<u8>| t@) + Seq::<Seq<u8>>::empty() =~= out@.map_values(
                |t: Vec<u8>| t@,
            ));
        }
    }
    out
}

/// The command prefix `g!point`, as bytes.
pub open spec fn kw_prefix() -> Seq<u8> {
    seq![103u8, 33u8, 112u8, 111u8, 105u8, 110u8, 116u8]
}

/// The subcommand `ranking`, as bytes.
pub open spec fn kw_ranking() -> Seq<u8> {
    seq![114u8, 97u8, 110u8, 107u8, 105u8, 110u8, 103u8]
}

/// The ranking key `duration`, as bytes.
pub open spec fn kw_duration() -> Seq<u8> {
    seq![100u8, 117u8, 114u8, 97u8, 116u8, 105u8, 111u8, 110u8]
}

/// The ranking key `point`, as bytes.
pub open spec fn kw_point() -> Seq<u8> {
    seq![112u8, 111u8, 105u8, 110u8, 116u8]
}

/// The subcommand `show`, as bytes.
pub open spec fn kw_show() -> Seq<u8> {
    seq![115u8, 104u8, 111u8, 119u8]
}

/// The Japanese alias of `show` — "genkai point" in katakana and kanji —
/// as UTF-8 bytes.
pub open spec fn kw_show_alias() -> Seq<u8> {
    seq![
        233u8,
        153u8,
        144u8,
        231u8,
        149u8,
        140u8,
        227u8,
        131u8,
        157u8,
        227u8,
        130u8,
        164u8,
        227u8,
        131u8,
        179u8,
        227u8,
        131u8,
        136u8,
    ]
}

/// Whether `t` holds exactly the bytes `103 33 112 111 105 110 116`
/// (`g!point`).
fn is_kw_prefix(t: &Vec<u8>) -> (r: bool)
    ensures
        r == (t@ == kw_prefix()),
{
    let r = t.len() == 7 && t[0] == 103 && t[1] == 33 && t[2] == 112 && t[3] == 111 && t[4] == 105
        && t[5] == 110 && t[6] == 116;
    proof {
        if r {
            assert(t@ =~= kw_prefix());
        }
    }
    r
}

/// Whether `t` spells `ranking`.
fn is_kw_ranking(t: &Vec<u8>) -> (r: bool)
    ensures
        r == (t@ == kw_ranking()),
{
    let r = t.len() == 7 && t[0] == 114 && t[1] == 97 && t[2] == 110 && t[3] == 107 && t[4] == 105
        && t[5] == 110 && t[6] == 103;
    proof {
        if r {
            assert(t@ =~= kw_ranking());
        }
    }
    r
}

/// Whether `t` spells `duration`.
fn is_kw_duration(t: &Vec<u8>) -> (r: bool)
    ensures
        r == (t@ == kw_duration()),
{
    let r = t.len() == 8 && t[0] == 100 && t[1] == 117 && t[2] == 114 && t[3] == 97 && t[4] == 116
        && t[5] == 105 && t[6] == 111 && t[7] == 110;
    proof {
        if r {
            assert(t@ =~= kw_duration());
        }
    }
    r
}

/// Whether `t` spells `point`.
fn is_kw_point(t: &Vec<u8>) -> (r: bool)
    ensures
        r == (t@ == kw_point()),
{
    let r = t.len() == 5 && t[0] == 112 && t[1] == 111 && t[2] == 105 && t[3] == 110 && t[4]
        == 116;
    proof {
        if r {
            assert(t@ =~= kw_point());
        }
    }
    r
}

/// Whether `t` spells `show`.
fn is_kw_show(t: &Vec<u8>) -> (r: bool)
    ensures
        r == (t@ == kw_show()),
{
    let r = t.len() == 4 && t[0] == 115 && t[1] == 104 && t[2] == 111 && t[3] == 119;
    proof {
        if r {
            assert(t@ =~= kw_show());
        }
    }
    r
}

/// Whether `t` spells the Japanese alias of `show`.
fn is_kw_show_alias(t: &Vec<u8>) -> (r: bool)
    ensures
        r == (t@ == kw_show_alias()),
{
    let r = t.len() == 18 && t[0] == 233 && t[1] == 153 && t[2] == 144 && t[3] == 231 && t[4]
        == 149 && t[5] == 140 && t[6] == 227 && t[7] == 131 && t[8] == 157 && t[9] == 227 && t[10]
        == 130 && t[11] == 164 && t[12] == 227 && t[13] == 131 && t[14] == 179 && t[15] == 227
        && t[16] == 131 && t[17] == 136;
    proof {
        if r {
            assert(t@ =~= kw_show_alias());
        }
    }
    r
}

/// The command the tokens ask for: nothing unless the first token is the
/// `g!point` prefix; `ranking duration`, `ranking point` and bare
/// `ranking` are the leaderboards; `show` and its Japanese alias, with
/// anything trailing, the summary; anything else after the prefix falls
/// back to the help listing.
pub open spec fn parse_spec(toks: Seq<Seq<u8>>) -> Command {
    if toks.len() == 0 || toks[0] != kw_prefix() {
        Command::NotForMe
    } else if toks.len() == 3 && toks[1] == kw_ranking() && toks[2] == kw_duration() {
        Command::RankingByDuration
    } else if (toks.len() == 3 && toks[1] == kw_ranking() && toks[2] == kw_point()) || (toks.len()
        == 2 && toks[1] == kw_ranking()) {
        Command::RankingByPoint
    } else if toks.len() >= 2 && (toks[1] == kw_show() || toks[1] == kw_show_alias()) {
        Command::Show
    } else {
        Command::Help
    }
}

/// Recognizes a tokenized message.
pub fn parse_tokens(tokens: &Vec<Vec<u8>>) -> (c: Command)
    ensures
        c == parse_spec(tokens@.map_values(|t: Vec<u8>| t@)),
{
    let ghost toks = tokens@.map_values(|t: Vec<u8>| t@);
    if tokens.len() == 0 || !is_kw_prefix(&tokens[0]) {
        return Command::NotForMe;
    }
    if tokens.len() == 3 && is_kw_ranking(&tokens[1]) && is_kw_duration(&tokens[2]) {
        return Command::RankingByDuration;
    }
    if (tokens.len() == 3 && is_kw_ranking(&tokens[1]) && is_kw_point(&tokens[2])) || (tokens.len()
        == 2 && is_kw_ranking(&tokens[1])) {
        return Command::RankingByPoint;
    }
    if tokens.len() >= 2 && (is_kw_show(&tokens[1]) || is_kw_show_alias(&tokens[1])) {
        return Command::Show;
    }
    Command::Help
}

/// Recognizes a raw message: tokenization, then the command table above.
pub fn parse_message(content: &Vec<u8>) -> (c: Command)
    ensures
        c == parse_spec(tokens_of(content@)),
{
    let tokens = tokenize(content);
    parse_tokens(&tokens)
}

/// Hours of `secs` in units of a hundredth of an hour, rounded to the
/// nearest (half up) — what a two-decimal hour display shows.
pub open spec fn centihours(secs: u64) -> int {
    (secs + 18) / 36
}

/// Computes `centihours` without overflow.
pub fn centihours_exec(secs: u64) -> (c: u64)
    ensures
        c == centihours(secs),
{
    let q = secs / 36;
    let r = secs % 36;
    if r >= 18 {
        q + 1
    } else {
        q
    }
}

/// The text of one ranking line: what `format!` renders from a zero-padded
/// 1-based index, integer points, the two-decimal hour split and a display
/// name. The rendering depends on these arguments alone.
pub uninterp spec fn rank_line_of(
    index: u64,
    points: u64,
    hours_whole: u64,
    hours_frac: u64,
    name: Seq<char>,
) -> Seq<char>;

/// The text of the summary block for a name, a point total and the
/// two-decimal hour split. The rendering depends on these arguments alone.
pub uninterp spec fn summary_of(
    name: Seq<char>,
    points: u64,
    hours_whole: u64,
    hours_frac: u64,
) -> Seq<char>;

/// The text of the leave announcement for a user, a cumulative total and a
/// delta. The rendering depends on these arguments alone.
pub uninterp spec fn notification_of(user_id: u64, points: u64, delta: u64) -> Seq<char>;

/// Lines joined with a single newline between each pair.
pub open spec fn joined_lines(ls: Seq<Seq<char>>) -> Seq<char>
    decreases ls.len(),
{
    if ls.len() == 0 {
        Seq::empty()
    } else if ls.len() == 1 {
        ls[0]
    } else {
        joined_lines(ls.drop_last()) + seq!['\n'] + ls.last()
    }
}

/// Relies on std's `str::to_string`: the same characters, owned.
#[verifier::external_body]
fn lit_string(s: &str) -> (r: String)
    ensures
        r@ == s@,
{
    s.to_string()
}

/// Relies on std's `format!` for decimal rendering of one ranking line:
/// zero-padded 1-based index, integer points, hours to two decimals, then
/// the display name.
#[verifier::external_body]
fn format_rank_line(index: u64, points: u64, hours_whole: u64, hours_frac: u64, name: &str) -> (r:
    String)
    ensures
        r@ == rank_line_of(index, points, hours_whole, hours_frac, name@),
{
    format!("#{:02} {:4}pt. {}.{:02}h {}", index, points, hours_whole, hours_frac, name)
}

/// Relies on std's `format!` for assembling the summary block.
#[verifier::external_body]
fn format_summary(name: &str, points: u64, hours_whole: u64, hours_frac: u64) -> (r: String)
    ensures
        r@ == summary_of(name@, points, hours_whole, hours_frac),
{
    format!(
        "```\n{}\n  - points: {}\n  - total vc duration: {}.{:02} h \n```",
        name,
        points,
        hours_whole,
        hours_frac,
    )
}

/// Relies on std's `format!`: the leave announcement with mention,
/// cumulative total and delta.
#[verifier::external_body]
fn format_notification(user_id: u64, points: u64, delta: u64) -> (r: String)
    ensures
        r@ == notification_of(user_id, points, delta),
{
    format!("now <@!{}> has {} genkai point (+{})", user_id, points, delta)
}

/// Relies on std's `join` on a vector of lines: concatenation with one
/// `"\n"` between each pair of lines.
#[verifier::external_body]
fn join_lines(lines: &Vec<String>) -> (r: String)
    ensures
        r@ == joined_lines(lines@.map_values(|l: String| l@)),
{
    lines.join("\n")
}

/// The displayed lines of a ranking page: one per entry, 1-indexed, each
/// rendered from the entry's points, its two-decimal hour split and its
/// resolved display name.
pub open spec fn rank_lines(entries: Seq<UserStat>, names: Seq<Seq<char>>) -> Seq<Seq<char>> {
    Seq::new(
        entries.len(),
        |k: int|
            rank_line_of(
                (k + 1) as u64,
                entries[k].genkai_point,
                (centihours(entries[k].total_vc_duration) / 100) as u64,
                (centihours(entries[k].total_vc_duration) % 100) as u64,
                names[k],
            ),
    )
}

/// The characters of each resolved display name (meaningful where every
/// name is present).
pub open spec fn resolved_names(names: Seq<Option<String>>) -> Seq<Seq<char>> {
    Seq::new(names.len(), |k: int| names[k]->0@)
}

/// The whole ranking response: the sort header and the ranking lines,
/// joined by newlines inside a monospace code fence.
pub open spec fn ranking_block(
    sort_msg: Seq<char>,
    entries: Seq<UserStat>,
    names: Seq<Seq<char>>,
) -> Seq<char> {
    joined_lines(seq![("```")@, sort_msg] + rank_lines(entries, names) + seq![("```")@])
}

/// The ranking response: a fenced monospace block with a sort header and
/// one line per entry, 1-indexed in the given order. A missing display
/// name is a lookup failure, and it aborts the whole response — never a
/// partial leaderboard (fail-closed).
pub fn render_ranking(sort_msg: &str, entries: &Vec<UserStat>, names: &Vec<Option<String>>) -> (r:
    Result<String, GenkaiError>)
    requires
        entries@.len() == names@.len(),
        entries@.len() <= 20,
    ensures
        r is Ok <==> (forall|k: int| 0 <= k < names@.len() ==> names@[k] is Some),
        r matches Ok(s) ==> s@ == ranking_block(sort_msg@, entries@, resolved_names(names@)),
        r is Err ==> r == Err::<String, GenkaiError>(GenkaiError::Lookup),
{
    let ghost rls = rank_lines(entries@, resolved_names(names@));
    let mut lines: Vec<String> = Vec::new();
    lines.push(lit_string("```"));
    lines.push(lit_string(sort_msg));
    proof {
        assert(lines@.map_values(|l: String| l@) =~= seq![("```")@, sort_msg@]);
    }
    let mut k: usize = 0;
    while k < entries.len()
        invariant
            k <= entries@.len(),
            entries@.len() == names@.len(),
            entries@.len() <= 20,
            rls == rank_lines(entries@, resolved_names(names@)),
            forall|m: int| 0 <= m < k as int ==> names@[m] is Some,
            lines@.map_values(|l: String| l@) == seq![("```")@, sort_msg@] + rls.take(k as int),
        decreases entries@.len() - k,
    {
        match &names[k] {
            None => {
                return Err(GenkaiError::Lookup);
            },
            Some(name) => {
                let ghost lines_pre = lines@;
                let c = centihours_exec(entries[k].total_vc_duration);
                let line = format_rank_line(
                    (k as u64) + 1,
                    entries[k].genkai_point,
                    c / 100,
                    c % 100,
                    name.as_str(),
                );
                proof {
                    assert(name@ == resolved_names(names@)[k as int]);
                    assert(line@ == rls[k as int]);
                }
                lines.push(line);
                proof {
                    assert(lines@.map_values(|l: String| l@) =~= lines_pre.map_values(
                        |l: String| l@,
                    ).push(line@));
                    assert(rls.take(k + 1 as int) =~= rls.take(k as int).push(rls[k as int]));
                    assert(lines@.map_values(|l: String| l@) =~= seq![("```")@, sort_msg@]
                        + rls.take(k + 1 as int));
                }
            },
        }
        k = k + 1;
    }
    let ghost lines_pre = lines@;
    lines.push(lit_string("```"));
    proof {
        assert(rls.take(entries@.len() as int) =~= rls);
        assert(lines@.map_values(|l: String| l@) =~= lines_pre.map_values(|l: String| l@).push(
            ("```")@,
        ));
        assert(lines@.map_values(|l: String| l@) =~= seq![("```")@, sort_msg@] + rls + seq![
            ("```")@,
        ]);
    }
    Ok(join_lines(&lines))
}

/// The summary response behind `show`: the name, the point total, and the
/// total voice time in hours to two decimals — the rendering of exactly
/// those values.
pub fn render_summary(name: &str, points: u64, duration_secs: u64) -> (r: String)
    ensures
        r@ == summary_of(
            name@,
            points,
            (centihours(duration_secs) / 100) as u64,
            (centihours(duration_secs) % 100) as u64,
        ),
{
    let c = centihours_exec(duration_secs);
    format_summary(name, points, c / 100, c % 100)
}

/// The announcement text for a leave event that earned points: the
/// rendering of exactly the notification's user, total and delta.
pub fn render_notification(n: &Notification) -> (r: String)
    ensures
        r@ == notification_of(n.user_id, n.points, n.delta),
{
    format_notification(n.user_id, n.points, n.delta)
}

/// The help listing, also shown for unrecognized subcommands.
pub open spec fn help_message() -> Seq<char> {
    ("```asciidoc\n= genkai_point =\ng!point [subcommand] [args...]\n\n= subcommands =\n    help                        :: show this message\n    show                        :: show your genkai point summary\n    ranking [duration or point] :: show the leaderboard\n```")@
}

/// The help listing, also shown for unrecognized subcommands.
pub fn help_text() -> (r: &'static str)
    ensures
        r@ == help_message(),
{
    "```asciidoc\n= genkai_point =\ng!point [subcommand] [args...]\n\n= subcommands =\n    help                        :: show this message\n    show                        :: show your genkai point summary\n    ranking [duration or point] :: show the leaderboard\n```"
}

} // verus!
