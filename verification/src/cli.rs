//! The commands of the command line: what the arguments ask for, and the texts of the answers.
use vstd::prelude::*;
use vstd::string::*;

use crate::config::FocusFlowConfig;
use crate::db::backup;
use crate::db::days;
use crate::db::days::is_valid_period;
use crate::db::devices;
use crate::db::devices::DeviceStat;
use crate::format::{csv_field, fmt_thousands, html_escape};
use crate::order;
use crate::order::{rank, Ranked};
use crate::tally::Tally;
use crate::text;
use crate::text::{
    chars_of, dec_i64, join, parse_within, push_char, str_eq, to_lower, to_small_letters, trim,
    vec_find,
};

verus! {

// ------------------------------------------------------------------------------ pieces

/// What a command prints, on which stream, and the code that it ends with.
pub struct Outcome {
    pub out: String,
    pub err: String,
    pub code: u8,
}

/// Prints to the output and succeeds.
pub open spec fn says(r: Outcome, t: Seq<char>) -> bool {
    r.out@ == t && r.err@.len() == 0 && r.code == 0
}

/// Prints to the error output and fails.
pub open spec fn fails(r: Outcome, t: Seq<char>) -> bool {
    r.out@.len() == 0 && r.err@ == t && r.code == 1
}

fn said(t: String) -> (r: Outcome)
    ensures
        says(r, t@),
{
    Outcome { out: t, err: String::new(), code: 0 }
}

fn failed(t: String) -> (r: Outcome)
    ensures
        fails(r, t@),
{
    Outcome { out: String::new(), err: t, code: 1 }
}

/// `c`, `n` times.
pub open spec fn repeated(c: char, n: nat) -> Seq<char> {
    Seq::new(n, |i: int| c)
}

fn repeat(c: char, n: usize) -> (r: String)
    ensures
        r@ == repeated(c, n as nat),
{
    let mut r: String = String::new();
    let mut i: usize = 0;
    assert(r@ =~= repeated(c, 0));
    while i < n
        invariant
            i <= n,
            r@ == repeated(c, i as nat),
        decreases n - i,
    {
        push_char(&mut r, c);
        i = i + 1;
        assert(r@ =~= repeated(c, i as nat));
    }
    r
}

/// `s`, filled up with spaces to `w` characters.
pub open spec fn padded(s: Seq<char>, w: nat) -> Seq<char> {
    if s.len() >= w {
        s
    } else {
        s + repeated(' ', (w - s.len()) as nat)
    }
}

fn pad(s: &str, w: usize) -> (r: String)
    ensures
        r@ == padded(s@, w as nat),
{
    let v = chars_of(s);
    if v.len() >= w {
        s.to_owned()
    } else {
        s.to_owned().concat(repeat(' ', w - v.len()).as_str())
    }
}

/// Years in decimal.
pub open spec fn year_texts(years: Seq<i32>) -> Seq<Seq<char>> {
    Seq::new(years.len(), |i: int| text::dec(years[i] as int))
}

/// Years in brackets.
pub open spec fn year_list(years: Seq<i32>) -> Seq<char> {
    "["@ + text::joined(year_texts(years), ", "@) + "]"@
}

/// Years in brackets.
pub fn years_in_brackets(years: &Vec<i32>) -> (r: String)
    ensures
        r@ == year_list(years@),
{
    let mut parts: Vec<String> = Vec::new();
    let mut i: usize = 0;
    while i < years.len()
        invariant
            i <= years.len(),
            parts@.len() == i,
            forall|k: int| 0 <= k < i ==> (#[trigger] parts@[k])@ == text::dec(years@[k] as int),
        decreases years.len() - i,
    {
        parts.push(dec_i64(years[i] as i64));
        i = i + 1;
    }
    assert(text::views(parts@) =~= year_texts(years@));
    "[".to_owned().concat(join(&parts, ", ").as_str()).concat("]")
}

/// The first `n` years, one to a line behind an indent.
pub open spec fn year_lines(years: Seq<i32>, n: nat, indent: Seq<char>, end: Seq<char>) -> Seq<char>
    decreases n,
{
    if n == 0 {
        Seq::empty()
    } else {
        year_lines(years, (n - 1) as nat, indent, end) + indent + text::dec(
            years[n - 1] as int,
        ) + end
    }
}

fn years_by_line(years: &Vec<i32>, indent: &str, end: &str) -> (r: String)
    ensures
        r@ == year_lines(years@, years@.len(), indent@, end@),
{
    let mut r: String = String::new();
    let mut i: usize = 0;
    assert(r@ =~= Seq::empty());
    while i < years.len()
        invariant
            i <= years.len(),
            r@ == year_lines(years@, i as nat, indent@, end@),
        decreases years.len() - i,
    {
        r = r.concat(indent).concat(dec_i64(years[i] as i64).as_str()).concat(end);
        i = i + 1;
    }
    r
}

// --------------------------------------------------------------------------- arguments

/// The help.
pub open spec fn usage_text() -> Seq<char> {
    "用法: focusflow-cli <命令> [参数]\n\n  --stats <天数|today|all>   统计最近 N 天 / 今日 / 总计\n  --stats-year <年份>        指定年度的统计\n  --devices <天数|today|all> 设备维度统计（各键鼠输入次数与占比）\n  --backup                   立即备份全部数据库到 backup/（含轮转与残留清理）\n  --device-keys [周期]       列出设备标识（device_key）与当前展示名，便于手改别名\n  --rename-device <匹配> <别名>\n                             给设备取别名（匹配 device_key 或展示名子串；别名留空则还原）\n  --list-years               列出有数据的年份\n  --export <csv|html>        导出报表到当前目录\n  --vacuum                   压缩数据库\n  --cleanup <天数>           保留 N 天（含今天），删除更早的数据\n  --reset                    清空所有统计记录（需输入 yes 确认）\n  -h, --help                 显示本帮助\n"@
}

/// The help.
pub fn usage() -> (r: String)
    ensures
        r@ == usage_text(),
{
    "用法: focusflow-cli <命令> [参数]\n\n  --stats <天数|today|all>   统计最近 N 天 / 今日 / 总计\n  --stats-year <年份>        指定年度的统计\n  --devices <天数|today|all> 设备维度统计（各键鼠输入次数与占比）\n  --backup                   立即备份全部数据库到 backup/（含轮转与残留清理）\n  --device-keys [周期]       列出设备标识（device_key）与当前展示名，便于手改别名\n  --rename-device <匹配> <别名>\n                             给设备取别名（匹配 device_key 或展示名子串；别名留空则还原）\n  --list-years               列出有数据的年份\n  --export <csv|html>        导出报表到当前目录\n  --vacuum                   压缩数据库\n  --cleanup <天数>           保留 N 天（含今天），删除更早的数据\n  --reset                    清空所有统计记录（需输入 yes 确认）\n  -h, --help                 显示本帮助\n".to_owned()
}

/// The days that statistics are about.
#[derive(Clone, Copy, PartialEq, Eq, Structural, Debug)]
pub enum Period {
    Today,
    All,
    Days(i64),
}

/// The period that an argument names, or why it names none.
pub open spec fn period_of(arg: Seq<char>) -> Result<Period, Seq<char>> {
    let w = text::lowered(arg);
    if w == "today"@ {
        Ok(Period::Today)
    } else if w == "all"@ {
        Ok(Period::All)
    } else {
        match text::int_within(w, i64::MIN as int, i64::MAX as int) {
            None => Err("无效的参数: "@ + arg + "（应为数字、today 或 all）"@),
            Some(n) => if -1 <= n <= days::MAX_QUERY_DAYS {
                if n == -1 {
                    Ok(Period::Today)
                } else if n == 0 {
                    Ok(Period::All)
                } else {
                    Ok(Period::Days(n as i64))
                }
            } else {
                Err(
                    "无效的天数: "@ + text::dec(n) + "（-1 = 今日，0 = 总计，1..="@ + text::dec(
                        days::MAX_QUERY_DAYS as int,
                    ) + " = 最近 N 天）"@,
                )
            },
        }
    }
}

/// The period that an argument names: `today`, `all`, -1 for today, 0 for all, or a number
/// of days; or why it names none.
pub fn parse_period(arg: &str) -> (r: Result<Period, String>)
    ensures
        match r {
            Ok(p) => period_of(arg@) == Ok::<Period, Seq<char>>(p),
            Err(e) => period_of(arg@) == Err::<Period, Seq<char>>(e@),
        },
{
    let w = to_lower(arg);
    if str_eq(w.as_str(), "today") {
        return Ok(Period::Today);
    }
    if str_eq(w.as_str(), "all") {
        return Ok(Period::All);
    }
    match parse_within(w.as_str(), i64::MIN, i64::MAX) {
        None => Err("无效的参数: ".to_owned().concat(arg).concat("（应为数字、today 或 all）")),
        Some(n) => {
            if !is_valid_period(n) {
                return Err(
                    "无效的天数: ".to_owned().concat(dec_i64(n).as_str()).concat(
                        "（-1 = 今日，0 = 总计，1..=",
                    ).concat(dec_i64(days::MAX_QUERY_DAYS).as_str()).concat(" = 最近 N 天）"),
                );
            }
            if n == -1 {
                Ok(Period::Today)
            } else if n == 0 {
                Ok(Period::All)
            } else {
                Ok(Period::Days(n))
            }
        },
    }
}

/// The text that the formatting `{:?}` makes of a text.
pub uninterp spec fn debug_text(s: Seq<char>) -> Seq<char>;

/// `format!` with `{:?}` on a text: what it makes of it depends on the text alone; the
/// quotes and escapes that it writes are left unsaid.
#[verifier::external_body]
fn debug_str(s: &str) -> (r: String)
    ensures
        r@ == debug_text(s@),
{
    format!("{s:?}")
}

/// The days to keep that an argument gives, or why it gives none; `shown` is how the
/// argument is quoted.
pub open spec fn keep_days_of(raw: Seq<char>, shown: Seq<char>) -> Result<i64, Seq<char>> {
    match text::int_within(raw, i64::MIN as int, i64::MAX as int) {
        None => Err("保留天数必须是整数（收到 "@ + shown + "）"@),
        Some(n) => if n < 1 {
            Err("保留天数必须 >= 1（收到 "@ + text::dec(n) + "）：0 或负数会连今天一起删掉"@)
        } else if n > 3660 {
            Err(
                "保留天数 "@ + text::dec(n)
                    + " 超出可理解的范围（上限 3660 天）：这个值等价于清空全部历史，真要清空请用 --reset"@,
            )
        } else {
            Ok(n as i64)
        },
    }
}

/// The days to keep that an argument gives, 1 to 3660, or why it gives none; `shown` is how
/// the argument is quoted.
pub fn read_keep_days(raw: &str, shown: &str) -> (r: Result<i64, String>)
    ensures
        match r {
            Ok(n) => keep_days_of(raw@, shown@) == Ok::<i64, Seq<char>>(n),
            Err(e) => keep_days_of(raw@, shown@) == Err::<i64, Seq<char>>(e@),
        },
{
    match parse_within(raw, i64::MIN, i64::MAX) {
        None => Err("保留天数必须是整数（收到 ".to_owned().concat(shown).concat("）")),
        Some(n) => if n < 1 {
            Err(
                "保留天数必须 >= 1（收到 ".to_owned().concat(dec_i64(n).as_str()).concat(
                    "）：0 或负数会连今天一起删掉",
                ),
            )
        } else if n > 3660 {
            Err(
                "保留天数 ".to_owned().concat(dec_i64(n).as_str()).concat(
                    " 超出可理解的范围（上限 3660 天）：这个值等价于清空全部历史，真要清空请用 --reset",
                ),
            )
        } else {
            Ok(n)
        },
    }
}

/// The days to keep that an argument gives, 1 to 3660, or why it gives none.
pub fn parse_keep_days(raw: &str) -> (r: Result<i64, String>)
    ensures
        match r {
            Ok(n) => keep_days_of(raw@, debug_text(raw@)) == Ok::<i64, Seq<char>>(n),
            Err(e) => keep_days_of(raw@, debug_text(raw@)) == Err::<i64, Seq<char>>(e@),
        },
{
    let shown = debug_str(raw);
    read_keep_days(raw, shown.as_str())
}

/// What the arguments ask for.
pub enum Command {
    /// Nothing: the help goes to the error output.
    NoArguments,
    Help,
    Stats(Period),
    StatsYear(i32),
    ListYears,
    Devices(Period),
    DeviceKeys,
    /// The text that a device is looked up by, and its alias.
    RenameDevice(String, String),
    /// The format.
    Export(String),
    Reset,
    Vacuum,
    Backup,
    /// The days to keep.
    Cleanup(i64),
    /// The directory.
    ImportLegacy(String),
    /// Nothing that can be done: the message.
    Refused(String),
}

/// What the arguments ask for.
pub enum CommandModel {
    NoArguments,
    Help,
    Stats(Period),
    StatsYear(i32),
    ListYears,
    Devices(Period),
    DeviceKeys,
    RenameDevice(Seq<char>, Seq<char>),
    Export(Seq<char>),
    Reset,
    Vacuum,
    Backup,
    Cleanup(i64),
    ImportLegacy(Seq<char>),
    Refused(Seq<char>),
}

impl View for Command {
    type V = CommandModel;

    open spec fn view(&self) -> CommandModel {
        match *self {
            Command::NoArguments => CommandModel::NoArguments,
            Command::Help => CommandModel::Help,
            Command::Stats(p) => CommandModel::Stats(p),
            Command::StatsYear(y) => CommandModel::StatsYear(y),
            Command::ListYears => CommandModel::ListYears,
            Command::Devices(p) => CommandModel::Devices(p),
            Command::DeviceKeys => CommandModel::DeviceKeys,
            Command::RenameDevice(m, a) => CommandModel::RenameDevice(m@, a@),
            Command::Export(f) => CommandModel::Export(f@),
            Command::Reset => CommandModel::Reset,
            Command::Vacuum => CommandModel::Vacuum,
            Command::Backup => CommandModel::Backup,
            Command::Cleanup(n) => CommandModel::Cleanup(n),
            Command::ImportLegacy(d) => CommandModel::ImportLegacy(d@),
            Command::Refused(m) => CommandModel::Refused(m@),
        }
    }
}

/// What the arguments ask for; `shown` is how the second one is quoted.
pub open spec fn command_of(args: Seq<Seq<char>>, shown: Seq<char>) -> CommandModel {
    if args.len() == 0 {
        CommandModel::NoArguments
    } else if args[0] == "-h"@ || args[0] == "--help"@ {
        CommandModel::Help
    } else if args[0] == "--stats"@ {
        if args.len() < 2 {
            CommandModel::Refused("用法: --stats <天数|today|all>\n"@)
        } else {
            match period_of(args[1]) {
                Ok(p) => CommandModel::Stats(p),
                Err(e) => CommandModel::Refused(e + "\n"@),
            }
        }
    } else if args[0] == "--stats-year"@ {
        if args.len() < 2 {
            CommandModel::Refused("用法: --stats-year <年份>\n"@)
        } else {
            match text::int_within(args[1], i32::MIN as int, i32::MAX as int) {
                Some(y) => CommandModel::StatsYear(y as i32),
                None => CommandModel::Refused("无效的年份: "@ + args[1] + "\n"@),
            }
        }
    } else if args[0] == "--list-years"@ {
        CommandModel::ListYears
    } else if args[0] == "--devices"@ {
        if args.len() < 2 {
            CommandModel::Refused("用法: --devices <天数|today|all>\n"@)
        } else {
            match period_of(args[1]) {
                Ok(p) => CommandModel::Devices(p),
                Err(e) => CommandModel::Refused(e + "\n"@),
            }
        }
    } else if args[0] == "--device-keys"@ {
        CommandModel::DeviceKeys
    } else if args[0] == "--rename-device"@ {
        if args.len() < 3 {
            CommandModel::Refused(
                "用法: --rename-device <匹配文本> <别名>\n  匹配文本为 device_key 或展示名的子串；别名留空字符串 \"\" 表示还原为自动名\n"@,
            )
        } else {
            CommandModel::RenameDevice(args[1], args[2])
        }
    } else if args[0] == "--export"@ {
        if args.len() < 2 {
            CommandModel::Refused("用法: --export <csv|html>\n"@)
        } else {
            CommandModel::Export(args[1])
        }
    } else if args[0] == "--reset"@ {
        CommandModel::Reset
    } else if args[0] == "--vacuum"@ {
        CommandModel::Vacuum
    } else if args[0] == "--backup"@ {
        CommandModel::Backup
    } else if args[0] == "--cleanup"@ {
        if args.len() < 2 {
            CommandModel::Refused("用法: --cleanup <保留天数>\n"@)
        } else {
            match keep_days_of(args[1], shown) {
                Ok(n) => CommandModel::Cleanup(n),
                Err(e) => CommandModel::Refused(e + "，已取消\n"@),
            }
        }
    } else if args[0] == "--import-legacy"@ {
        if args.len() < 2 {
            CommandModel::Refused(
                "用法: --import-legacy <旧数据目录>\n  从旧版（Python 原版或旧目录）导入全部数据到当前数据目录\n"@,
            )
        } else {
            CommandModel::ImportLegacy(args[1])
        }
    } else {
        CommandModel::Refused("未知参数: "@ + args[0] + "\n"@)
    }
}

/// What the arguments ask for; `shown` is how the second one is quoted.
pub fn read_command(args: &Vec<String>, shown: &str) -> (r: Command)
    ensures
        r@ == command_of(text::views(args@), shown@),
{
    let ghost v = text::views(args@);
    if args.len() == 0 {
        return Command::NoArguments;
    }
    assert(v[0] == args@[0]@);
    assert(args@.len() > 1 ==> v[1] == args@[1]@);
    assert(args@.len() > 2 ==> v[2] == args@[2]@);
    let name = args[0].as_str();
    if str_eq(name, "-h") || str_eq(name, "--help") {
        Command::Help
    } else if str_eq(name, "--stats") {
        if args.len() < 2 {
            Command::Refused("用法: --stats <天数|today|all>\n".to_owned())
        } else {
            match parse_period(args[1].as_str()) {
                Ok(p) => Command::Stats(p),
                Err(e) => Command::Refused(e.concat("\n")),
            }
        }
    } else if str_eq(name, "--stats-year") {
        if args.len() < 2 {
            Command::Refused("用法: --stats-year <年份>\n".to_owned())
        } else {
            match parse_within(args[1].as_str(), -2_147_483_648, 2_147_483_647) {
                Some(y) => Command::StatsYear(y as i32),
                None => Command::Refused(
                    "无效的年份: ".to_owned().concat(args[1].as_str()).concat("\n"),
                ),
            }
        }
    } else if str_eq(name, "--list-years") {
        Command::ListYears
    } else if str_eq(name, "--devices") {
        if args.len() < 2 {
            Command::Refused("用法: --devices <天数|today|all>\n".to_owned())
        } else {
            match parse_period(args[1].as_str()) {
                Ok(p) => Command::Devices(p),
                Err(e) => Command::Refused(e.concat("\n")),
            }
        }
    } else if str_eq(name, "--device-keys") {
        Command::DeviceKeys
    } else if str_eq(name, "--rename-device") {
        if args.len() < 3 {
            Command::Refused(
                "用法: --rename-device <匹配文本> <别名>\n  匹配文本为 device_key 或展示名的子串；别名留空字符串 \"\" 表示还原为自动名\n".to_owned(),
            )
        } else {
            Command::RenameDevice(args[1].clone(), args[2].clone())
        }
    } else if str_eq(name, "--export") {
        if args.len() < 2 {
            Command::Refused("用法: --export <csv|html>\n".to_owned())
        } else {
            Command::Export(args[1].clone())
        }
    } else if str_eq(name, "--reset") {
        Command::Reset
    } else if str_eq(name, "--vacuum") {
        Command::Vacuum
    } else if str_eq(name, "--backup") {
        Command::Backup
    } else if str_eq(name, "--cleanup") {
        if args.len() < 2 {
            Command::Refused("用法: --cleanup <保留天数>\n".to_owned())
        } else {
            match read_keep_days(args[1].as_str(), shown) {
                Ok(n) => Command::Cleanup(n),
                Err(e) => Command::Refused(e.concat("，已取消\n")),
            }
        }
    } else if str_eq(name, "--import-legacy") {
        if args.len() < 2 {
            Command::Refused(
                "用法: --import-legacy <旧数据目录>\n  从旧版（Python 原版或旧目录）导入全部数据到当前数据目录\n".to_owned(),
            )
        } else {
            Command::ImportLegacy(args[1].clone())
        }
    } else {
        Command::Refused("未知参数: ".to_owned().concat(name).concat("\n"))
    }
}

/// How the second argument is quoted; nothing where there is none.
pub open spec fn second_quoted(args: Seq<Seq<char>>) -> Seq<char> {
    if args.len() < 2 {
        Seq::empty()
    } else {
        debug_text(args[1])
    }
}

/// What the arguments ask for.
pub fn run(args: &Vec<String>) -> (r: Command)
    ensures
        r@ == command_of(text::views(args@), second_quoted(text::views(args@))),
{
    let shown = if args.len() < 2 {
        String::new()
    } else {
        assert(text::views(args@)[1] == args@[1]@);
        debug_str(args[1].as_str())
    };
    assert(args@.len() < 2 ==> shown@ =~= Seq::empty());
    read_command(args, shown.as_str())
}

/// What is written about a command that is refused is never empty.
pub proof fn lemma_refusals_say_why(args: Seq<Seq<char>>, shown: Seq<char>)
    ensures
        command_of(args, shown) matches CommandModel::Refused(m) ==> m.len() > 0,
{
    reveal_strlit("\n");
    reveal_strlit("，已取消\n");
    reveal_strlit("用法: --stats <天数|today|all>\n");
    reveal_strlit("用法: --stats-year <年份>\n");
    reveal_strlit("用法: --devices <天数|today|all>\n");
    reveal_strlit(
        "用法: --rename-device <匹配文本> <别名>\n  匹配文本为 device_key 或展示名的子串；别名留空字符串 \"\" 表示还原为自动名\n",
    );
    reveal_strlit("用法: --export <csv|html>\n");
    reveal_strlit("用法: --cleanup <保留天数>\n");
    reveal_strlit(
        "用法: --import-legacy <旧数据目录>\n  从旧版（Python 原版或旧目录）导入全部数据到当前数据目录\n",
    );
}

// ------------------------------------------------------------------------- statistics

/// A key and how often it was pressed.
pub struct StatRow {
    pub key: String,
    pub count: i64,
}

impl View for StatRow {
    type V = (Seq<char>, int);

    open spec fn view(&self) -> (Seq<char>, int) {
        (self.key@, self.count as int)
    }
}

/// Whether `a` was pressed more often than `b`.
pub open spec fn oftener(a: (Seq<char>, int), b: (Seq<char>, int)) -> bool {
    a.1 > b.1
}

impl Ranked for StatRow {
    open spec fn ahead(a: (Seq<char>, int), b: (Seq<char>, int)) -> bool {
        oftener(a, b)
    }

    fn goes_ahead(&self, other: &Self) -> (r: bool) {
        self.count > other.count
    }
}

/// The keys, the one pressed most first.
pub open spec fn most_first(s: Seq<(Seq<char>, int)>) -> Seq<(Seq<char>, int)> {
    order::ranked(s, |a: (Seq<char>, int), b: (Seq<char>, int)| oftener(a, b))
}

/// The keys, the one pressed most first.
pub fn rank_stats(stats: &Tally<String>) -> (r: Vec<StatRow>)
    ensures
        order::seen(r@) == most_first(stats@),
        r@.len() == stats@.len(),
{
    let mut rows: Vec<StatRow> = Vec::new();
    let mut i: usize = 0;
    while i < stats.rows.len()
        invariant
            i <= stats.rows.len(),
            rows@.len() == i,
            forall|k: int| 0 <= k < i ==> (#[trigger] rows@[k])@ == stats@[k],
        decreases stats.rows.len() - i,
    {
        rows.push(StatRow { key: stats.rows[i].0.clone(), count: stats.rows[i].1 });
        i = i + 1;
    }
    proof {
        assert(order::seen(rows@) =~= stats@);
        assert(order::by_rank::<StatRow>() =~= (|a: (Seq<char>, int), b: (Seq<char>, int)|
            oftener(a, b)));
    }
    rank(rows)
}

/// The words for a period.
pub open spec fn period_text(p: Period) -> Seq<char> {
    match p {
        Period::Today => "今日"@,
        Period::All => "总计"@,
        Period::Days(n) => "最近 "@ + text::dec(n as int) + " 天"@,
    }
}

/// The words for a period.
pub fn period_label(p: Period) -> (r: String)
    ensures
        r@ == period_text(p),
{
    match p {
        Period::Today => "今日".to_owned(),
        Period::All => "总计".to_owned(),
        Period::Days(n) => "最近 ".to_owned().concat(dec_i64(n).as_str()).concat(" 天"),
    }
}

/// Counts that can be shown.
pub open spec fn showable(rows: Seq<StatRow>) -> bool {
    forall|i: int| 0 <= i < rows.len() ==> (#[trigger] rows[i]).count != i64::MIN
}

/// The lines of the first `n` keys: place, name, count and share.
pub open spec fn stat_lines(rows: Seq<(Seq<char>, int)>, percents: Seq<Seq<char>>, n: nat) -> Seq<char>
    decreases n,
{
    if n == 0 {
        Seq::empty()
    } else {
        stat_lines(rows, percents, (n - 1) as nat)
            + "  "@
            + padded(text::dec(n as int), 6)
            + padded(rows[n - 1].0, 12)
            + padded(crate::format::thousands(rows[n - 1].1), 12)
            + padded(percents[n - 1], 10)
            + "\n"@
    }
}

fn stat_rows(rows: &Vec<StatRow>, percents: &Vec<String>, n: usize) -> (r: String)
    requires
        n <= rows@.len(),
        rows@.len() < i64::MAX,
        showable(rows@),
        percents@.len() == rows@.len(),
    ensures
        r@ == stat_lines(order::seen(rows@), text::views(percents@), n as nat),
{
    let ghost s = order::seen(rows@);
    let mut r: String = String::new();
    let mut i: usize = 0;
    assert(r@ =~= Seq::empty());
    while i < n
        invariant
            i <= n <= rows@.len(),
            rows@.len() < i64::MAX,
            s == order::seen(rows@),
            showable(rows@),
            percents@.len() == rows@.len(),
            r@ == stat_lines(s, text::views(percents@), i as nat),
        decreases n - i,
    {
        let ghost before = r@;
        assert(text::views(percents@)[i as int] == percents@[i as int]@);
        let place: i64 = i as i64 + 1;
        let row = &rows[i];
        r = r.concat("  ").concat(pad(dec_i64(place).as_str(), 6).as_str()).concat(pad(row.key.as_str(), 12).as_str()).concat(pad(fmt_thousands(row.count).as_str(), 12).as_str()).concat(pad(percents[i].as_str(), 10).as_str()).concat("\n");
        i = i + 1;
    }
    r
}

/// The lines of the first `n` keys: place, name and count.
pub open spec fn year_stat_lines(rows: Seq<(Seq<char>, int)>, n: nat) -> Seq<char>
    decreases n,
{
    if n == 0 {
        Seq::empty()
    } else {
        year_stat_lines(rows, (n - 1) as nat)
            + "  "@
            + padded(text::dec(n as int), 6)
            + padded(rows[n - 1].0, 12)
            + crate::format::thousands(rows[n - 1].1)
            + "\n"@
    }
}

fn year_rows(rows: &Vec<StatRow>, n: usize) -> (r: String)
    requires
        n <= rows@.len(),
        rows@.len() < i64::MAX,
        showable(rows@),
    ensures
        r@ == year_stat_lines(order::seen(rows@), n as nat),
{
    let ghost s = order::seen(rows@);
    let mut r: String = String::new();
    let mut i: usize = 0;
    assert(r@ =~= Seq::empty());
    while i < n
        invariant
            i <= n <= rows@.len(),
            rows@.len() < i64::MAX,
            s == order::seen(rows@),
            showable(rows@),
            r@ == year_stat_lines(s, i as nat),
        decreases n - i,
    {
        let ghost before = r@;
        let place: i64 = i as i64 + 1;
        let row = &rows[i];
        r = r.concat("  ").concat(pad(dec_i64(place).as_str(), 6).as_str()).concat(pad(row.key.as_str(), 12).as_str()).concat(fmt_thousands(row.count).as_str()).concat("\n");
        i = i + 1;
    }
    r
}

/// The lines of the first `n` keys as comma-separated fields.
pub open spec fn csv_lines(rows: Seq<(Seq<char>, int)>, percents: Seq<Seq<char>>, n: nat) -> Seq<char>
    decreases n,
{
    if n == 0 {
        Seq::empty()
    } else {
        csv_lines(rows, percents, (n - 1) as nat)
            + text::dec(n as int)
            + ","@
            + crate::format::csv(rows[n - 1].0)
            + ","@
            + text::dec(rows[n - 1].1)
            + ","@
            + percents[n - 1]
            + "\n"@
    }
}

fn csv_rows(rows: &Vec<StatRow>, percents: &Vec<String>, n: usize) -> (r: String)
    requires
        n <= rows@.len(),
        rows@.len() < i64::MAX,
        showable(rows@),
        percents@.len() == rows@.len(),
    ensures
        r@ == csv_lines(order::seen(rows@), text::views(percents@), n as nat),
{
    let ghost s = order::seen(rows@);
    let mut r: String = String::new();
    let mut i: usize = 0;
    assert(r@ =~= Seq::empty());
    while i < n
        invariant
            i <= n <= rows@.len(),
            rows@.len() < i64::MAX,
            s == order::seen(rows@),
            showable(rows@),
            percents@.len() == rows@.len(),
            r@ == csv_lines(s, text::views(percents@), i as nat),
        decreases n - i,
    {
        let ghost before = r@;
        assert(text::views(percents@)[i as int] == percents@[i as int]@);
        let place: i64 = i as i64 + 1;
        let row = &rows[i];
        r = r.concat(dec_i64(place).as_str()).concat(",").concat(csv_field(row.key.as_str()).as_str()).concat(",").concat(dec_i64(row.count).as_str()).concat(",").concat(percents[i].as_str()).concat("\n");
        i = i + 1;
    }
    r
}

/// The rows of the first `n` keys as a table.
pub open spec fn html_lines(rows: Seq<(Seq<char>, int)>, percents: Seq<Seq<char>>, widths: Seq<Seq<char>>, n: nat) -> Seq<char>
    decreases n,
{
    if n == 0 {
        Seq::empty()
    } else {
        html_lines(rows, percents, widths, (n - 1) as nat)
            + "<tr><td class=\"rank\">"@
            + text::dec(n as int)
            + "</td><td class=\"key\">"@
            + crate::format::escaped(rows[n - 1].0)
            + "</td><td class=\"count\">"@
            + crate::format::thousands(rows[n - 1].1)
            + "</td><td class=\"percent\"><div class=\"bar-container\"><div class=\"bar\" style=\"width:"@
            + widths[n - 1]
            + "%\"></div><span>"@
            + percents[n - 1]
            + "</span></div></td></tr>"@
    }
}

fn html_rows(rows: &Vec<StatRow>, percents: &Vec<String>, widths: &Vec<String>, n: usize) -> (r: String)
    requires
        n <= rows@.len(),
        rows@.len() < i64::MAX,
        showable(rows@),
        percents@.len() == rows@.len(),
        widths@.len() == rows@.len(),
    ensures
        r@ == html_lines(order::seen(rows@), text::views(percents@), text::views(widths@), n as nat),
{
    let ghost s = order::seen(rows@);
    let mut r: String = String::new();
    let mut i: usize = 0;
    assert(r@ =~= Seq::empty());
    while i < n
        invariant
            i <= n <= rows@.len(),
            rows@.len() < i64::MAX,
            s == order::seen(rows@),
            showable(rows@),
            percents@.len() == rows@.len(),
            widths@.len() == rows@.len(),
            r@ == html_lines(s, text::views(percents@), text::views(widths@), i as nat),
        decreases n - i,
    {
        let ghost before = r@;
        assert(text::views(percents@)[i as int] == percents@[i as int]@);
        assert(text::views(widths@)[i as int] == widths@[i as int]@);
        let place: i64 = i as i64 + 1;
        let row = &rows[i];
        r = r.concat("<tr><td class=\"rank\">").concat(dec_i64(place).as_str()).concat("</td><td class=\"key\">").concat(html_escape(row.key.as_str()).as_str()).concat("</td><td class=\"count\">").concat(fmt_thousands(row.count).as_str()).concat("</td><td class=\"percent\"><div class=\"bar-container\"><div class=\"bar\" style=\"width:").concat(widths[i].as_str()).concat("%\"></div><span>").concat(percents[i].as_str()).concat("</span></div></td></tr>");
        i = i + 1;
    }
    r
}

/// The heading of statistics.
pub open spec fn heading(label: Seq<char>, total: int) -> Seq<char> {
    "\n"@
            + repeated('=', 50)
            + "\n  FocusFlow 活跃统计 - "@
            + label
            + "\n"@
            + repeated('=', 50)
            + "\n  总活跃次数: "@
            + crate::format::thousands(total)
            + "\n"@
            + repeated('-', 50)
            + "\n"@
}

fn heading_of(label: &str, total: i64) -> (r: String)
    requires
        total != i64::MIN,
    ensures
        r@ == heading(label@, total as int),
{
    "\n".to_owned().concat(repeat('=', 50).as_str()).concat("\n  FocusFlow 活跃统计 - ").concat(label).concat("\n").concat(repeat('=', 50).as_str()).concat("\n  总活跃次数: ").concat(fmt_thousands(total).as_str()).concat("\n").concat(repeat('-', 50).as_str()).concat("\n")
}

/// The statistics of a period: the first 20 keys, and how many there are where there are
/// that many.
pub open spec fn stats_text(
    label: Seq<char>,
    total: int,
    rows: Seq<(Seq<char>, int)>,
    percents: Seq<Seq<char>>,
) -> Seq<char> {
    let shown: nat = if rows.len() < 20 {
        rows.len()
    } else {
        20
    };
    heading(label, total)
            + "  "@
            + padded("排名"@, 6)
            + padded("键鼠"@, 12)
            + padded("次数"@, 12)
            + padded("占比"@, 10)
            + "\n  "@
            + repeated('-', 40)
            + "\n"@
            + stat_lines(rows, percents, shown) + (if rows.len() >= 20 {
        "  ... 共 "@ + text::dec(rows.len() as int) + " 种键鼠\n"@
    } else {
        Seq::empty()
    })
            + repeated('=', 50)
            + "\n\n"@
}

/// The statistics of a period. `percents` are the shares of the keys.
pub fn print_stats(label: &str, total: i64, rows: &Vec<StatRow>, percents: &Vec<String>) -> (r:
    Outcome)
    requires
        total != i64::MIN,
        rows@.len() < i64::MAX,
        percents@.len() == rows@.len(),
        showable(rows@),
    ensures
        says(
            r,
            stats_text(label@, total as int, order::seen(rows@), text::views(percents@)),
        ),
{
    let n: usize = if rows.len() < 20 {
        rows.len()
    } else {
        20
    };
    let lines = stat_rows(rows, percents, n);
    let more = if rows.len() >= 20 {
        "  ... 共 ".to_owned().concat(dec_i64(rows.len() as i64).as_str()).concat(" 种键鼠\n")
    } else {
        String::new()
    };
    assert(rows@.len() < 20 ==> more@ =~= Seq::empty());
    let t = heading_of(label, total).concat("  ").concat(pad("排名", 6).as_str()).concat(pad("键鼠", 12).as_str()).concat(pad("次数", 12).as_str()).concat(pad("占比", 10).as_str()).concat("\n  ").concat(repeat('-', 40).as_str()).concat("\n").concat(lines.as_str()).concat(more.as_str()).concat(repeat('=', 50).as_str()).concat("\n\n");
    said(t)
}

/// The statistics of a year: the first 20 keys.
pub open spec fn year_stats_text(year: int, total: int, rows: Seq<(Seq<char>, int)>) -> Seq<char> {
    let shown: nat = if rows.len() < 20 {
        rows.len()
    } else {
        20
    };
    heading(text::dec(year) + " 年度"@, total) + year_stat_lines(rows, shown)
            + repeated('=', 50)
            + "\n\n"@
}

/// The statistics of a year.
pub fn print_year_stats(year: i32, total: i64, rows: &Vec<StatRow>) -> (r: Outcome)
    requires
        total != i64::MIN,
        rows@.len() < i64::MAX,
        showable(rows@),
    ensures
        says(r, year_stats_text(year as int, total as int, order::seen(rows@))),
{
    let n: usize = if rows.len() < 20 {
        rows.len()
    } else {
        20
    };
    let label = dec_i64(year as i64).concat(" 年度");
    let lines = year_rows(rows, n);
    let t = heading_of(label.as_str(), total).concat(lines.as_str()).concat(repeat('=', 50).as_str()).concat("\n\n");
    said(t)
}

/// The statistics of all time as comma-separated fields, with a byte order mark in front.
pub open spec fn csv_text(
    total: int,
    rows: Seq<(Seq<char>, int)>,
    percents: Seq<Seq<char>>,
    now: Seq<char>,
) -> Seq<char> {
    "﻿# FocusFlow 键鼠活跃统计导出\n# 统计周期 总计\n# 总活跃次数 "@
            + text::dec(total)
            + "\n# 导出时间 "@
            + now
            + "\n\n排名,键鼠,次数,占比(%)\n"@
            + csv_lines(rows, percents, rows.len())
}

/// The statistics of all time as comma-separated fields. `percents` are the shares of the
/// keys.
pub fn export_csv(total: i64, rows: &Vec<StatRow>, percents: &Vec<String>, now: &str) -> (r: String)
    requires
        rows@.len() < i64::MAX,
        percents@.len() == rows@.len(),
        showable(rows@),
    ensures
        r@ == csv_text(total as int, order::seen(rows@), text::views(percents@), now@),
{
    let lines = csv_rows(rows, percents, rows.len());
    "﻿# FocusFlow 键鼠活跃统计导出\n# 统计周期 总计\n# 总活跃次数 ".to_owned().concat(dec_i64(total).as_str()).concat("\n# 导出时间 ").concat(now).concat("\n\n排名,键鼠,次数,占比(%)\n").concat(lines.as_str())
}

/// The statistics of all time as a page.
pub open spec fn html_text(
    total: int,
    rows: Seq<(Seq<char>, int)>,
    percents: Seq<Seq<char>>,
    widths: Seq<Seq<char>>,
    now: Seq<char>,
) -> Seq<char> {
    "<!DOCTYPE html>\n<html lang=\"zh-CN\">\n<head>\n<meta charset=\"UTF-8\">\n<title>FocusFlow 活跃统计报告</title>\n<style>\n    body { font-family: \"Segoe UI\", \"Microsoft YaHei\", sans-serif; margin: 40px; background: #f5f5f5; }\n    .container { max-width: 800px; margin: 0 auto; background: white; padding: 30px; border-radius: 8px; }\n    h1 { color: #0078d4; }\n    .meta { color: #666; margin-bottom: 20px; }\n    .total { font-size: 28px; font-weight: bold; color: #0078d4; }\n    table { width: 100%; border-collapse: collapse; margin-top: 20px; }\n    th { background: #0078d4; color: white; padding: 12px; }\n    td { padding: 10px; border-bottom: 1px solid #eee; }\n    .bar-container { position: relative; min-width: 200px; }\n    .bar { background: #0078d4; height: 20px; border-radius: 3px; opacity: 0.3; }\n    .bar-container span { position: absolute; left: 8px; top: 2px; }\n</style>\n</head>\n<body>\n<div class=\"container\">\n    <h1>FocusFlow 活跃统计报告</h1>\n    <div class=\"meta\"><div>统计周期：总计</div><div>导出时间："@
            + now
            + "</div></div>\n    <div class=\"total\">总活跃次数："@
            + crate::format::thousands(total)
            + "</div>\n    <table>\n        <thead><tr><th>排名</th><th>键鼠</th><th>次数</th><th>占比</th></tr></thead>\n        <tbody>"@
            + html_lines(rows, percents, widths, rows.len())
            + "</tbody>\n    </table>\n</div>\n</body>\n</html>"@
}

/// The statistics of all time as a page. `percents` are the shares of the keys, `widths` the
/// lengths of their bars.
pub fn export_html(
    total: i64,
    rows: &Vec<StatRow>,
    percents: &Vec<String>,
    widths: &Vec<String>,
    now: &str,
) -> (r: String)
    requires
        total != i64::MIN,
        rows@.len() < i64::MAX,
        percents@.len() == rows@.len(),
        widths@.len() == rows@.len(),
        showable(rows@),
    ensures
        r@ == html_text(
            total as int,
            order::seen(rows@),
            text::views(percents@),
            text::views(widths@),
            now@,
        ),
{
    let lines = html_rows(rows, percents, widths, rows.len());
    "<!DOCTYPE html>\n<html lang=\"zh-CN\">\n<head>\n<meta charset=\"UTF-8\">\n<title>FocusFlow 活跃统计报告</title>\n<style>\n    body { font-family: \"Segoe UI\", \"Microsoft YaHei\", sans-serif; margin: 40px; background: #f5f5f5; }\n    .container { max-width: 800px; margin: 0 auto; background: white; padding: 30px; border-radius: 8px; }\n    h1 { color: #0078d4; }\n    .meta { color: #666; margin-bottom: 20px; }\n    .total { font-size: 28px; font-weight: bold; color: #0078d4; }\n    table { width: 100%; border-collapse: collapse; margin-top: 20px; }\n    th { background: #0078d4; color: white; padding: 12px; }\n    td { padding: 10px; border-bottom: 1px solid #eee; }\n    .bar-container { position: relative; min-width: 200px; }\n    .bar { background: #0078d4; height: 20px; border-radius: 3px; opacity: 0.3; }\n    .bar-container span { position: absolute; left: 8px; top: 2px; }\n</style>\n</head>\n<body>\n<div class=\"container\">\n    <h1>FocusFlow 活跃统计报告</h1>\n    <div class=\"meta\"><div>统计周期：总计</div><div>导出时间：".to_owned().concat(now).concat("</div></div>\n    <div class=\"total\">总活跃次数：").concat(fmt_thousands(total).as_str()).concat("</div>\n    <table>\n        <thead><tr><th>排名</th><th>键鼠</th><th>次数</th><th>占比</th></tr></thead>\n        <tbody>").concat(lines.as_str()).concat("</tbody>\n    </table>\n</div>\n</body>\n</html>")
}

/// A format of an export.
#[derive(Clone, Copy, PartialEq, Eq, Structural, Debug)]
pub enum ExportFormat {
    Csv,
    Html,
}

/// The format of a name, or why it has none.
pub fn export_format(fmt: &str) -> (r: Result<ExportFormat, String>)
    ensures
        match r {
            Ok(f) => fmt@ == (match f {
                ExportFormat::Csv => "csv"@,
                ExportFormat::Html => "html"@,
            }),
            Err(e) => fmt@ != "csv"@ && fmt@ != "html"@ && e@ == "不支持的格式: "@ + fmt@
                + "（可选 csv 或 html）\n"@,
        },
{
    if str_eq(fmt, "csv") {
        Ok(ExportFormat::Csv)
    } else if str_eq(fmt, "html") {
        Ok(ExportFormat::Html)
    } else {
        Err("不支持的格式: ".to_owned().concat(fmt).concat("（可选 csv 或 html）\n"))
    }
}

/// The answer to an export: the file it went to, or that it failed.
pub fn export(path: &str, written: bool) -> (r: Outcome)
    ensures
        written ==> says(r, "已导出到: "@ + path@ + "\n"@),
        !written ==> r.out@ == "导出失败\n"@ && r.err@.len() == 0 && r.code == 1,
{
    if written {
        said("已导出到: ".to_owned().concat(path).concat("\n"))
    } else {
        Outcome { out: "导出失败\n".to_owned(), err: String::new(), code: 1 }
    }
}

/// The years that have data.
pub open spec fn years_text(years: Seq<i32>) -> Seq<char> {
    if years.len() == 0 {
        "暂无数据\n"@
    } else {
        "\n有数据的年份：\n"@
            + year_lines(years, years.len(), "  "@, "\n"@)
            + "\n"@
    }
}

/// The years that have data.
pub fn print_list_years(years: &Vec<i32>) -> (r: Outcome)
    ensures
        says(r, years_text(years@)),
{
    if years.len() == 0 {
        return said("暂无数据\n".to_owned());
    }
    said("\n有数据的年份：\n".to_owned().concat(years_by_line(years, "  ", "\n").as_str()).concat("\n"))
}

// ---------------------------------------------------------------------------- devices

/// The word for a kind of device.
pub open spec fn kind_text(kind: Seq<char>) -> Seq<char> {
    if kind == "mouse"@ {
        "鼠标"@
    } else if kind == "keyboard"@ {
        "键盘"@
    } else if kind == "hybrid"@ {
        "键鼠"@
    } else {
        "未知"@
    }
}

fn kind_label(kind: &str) -> (r: &'static str)
    ensures
        r@ == kind_text(kind@),
{
    if str_eq(kind, "mouse") {
        "鼠标"
    } else if str_eq(kind, "keyboard") {
        "键盘"
    } else if str_eq(kind, "hybrid") {
        "键鼠"
    } else {
        "未知"
    }
}

/// The lines of the first `n` devices: place, name, kind and share.
pub open spec fn device_lines(
    rows: Seq<devices::StatModel>,
    percents: Seq<Seq<char>>,
    n: nat,
) -> Seq<char>
    decreases n,
{
    if n == 0 {
        Seq::empty()
    } else {
        device_lines(rows, percents, (n - 1) as nat)
            + "  "@
            + padded(text::dec(n as int), 6)
            + padded(rows[n - 1].name, 44)
            + padded(kind_text(rows[n - 1].kind), 8)
            + padded(percents[n - 1], 8)
            + "\n"@
    }
}

fn device_rows(rows: &Vec<DeviceStat>, percents: &Vec<String>) -> (r: String)
    requires
        rows@.len() < i64::MAX,
        percents@.len() == rows@.len(),
    ensures
        r@ == device_lines(order::seen(rows@), text::views(percents@), rows@.len()),
{
    let ghost s = order::seen(rows@);
    let mut r: String = String::new();
    let mut i: usize = 0;
    assert(r@ =~= Seq::empty());
    while i < rows.len()
        invariant
            i <= rows@.len(),
            rows@.len() < i64::MAX,
            s == order::seen(rows@),
            percents@.len() == rows@.len(),
            r@ == device_lines(s, text::views(percents@), i as nat),
        decreases rows.len() - i,
    {
        assert(text::views(percents@)[i as int] == percents@[i as int]@);
        let place: i64 = i as i64 + 1;
        r = r.concat("  ").concat(pad(dec_i64(place).as_str(), 6).as_str()).concat(pad(rows[i].name.as_str(), 44).as_str()).concat(pad(kind_label(rows[i].kind.as_str()), 8).as_str()).concat(pad(percents[i].as_str(), 8).as_str()).concat("\n");
        i = i + 1;
    }
    r
}

/// The statistics by device of a period.
pub open spec fn devices_text(
    label: Seq<char>,
    total: int,
    rows: Seq<devices::StatModel>,
    percents: Seq<Seq<char>>,
) -> Seq<char> {
    let head = "\n"@
            + repeated('=', 60)
            + "\n  FocusFlow 设备统计 - "@
            + label
            + "\n"@
            + repeated('=', 60)
            + "\n  输入总次数: "@
            + crate::format::thousands(total)
            + "（口径：键盘按下 + 鼠标按键 + 滚轮）\n"@
            + repeated('-', 60)
            + "\n"@;
    if rows.len() == 0 {
        head + "  暂无设备数据（功能上线后开始积累）\n"@
            + repeated('=', 60)
            + "\n\n"@
    } else {
        head
            + "  "@
            + padded("排名"@, 6)
            + padded("设备"@, 44)
            + padded("类型"@, 8)
            + padded("占比"@, 8)
            + "\n  "@
            + repeated('-', 56)
            + "\n"@
            + device_lines(rows, percents, rows.len())
            + repeated('=', 60)
            + "\n\n"@
    }
}

/// The statistics by device of a period. `percents` are the shares of the devices.
pub fn print_devices(label: &str, total: i64, rows: &Vec<DeviceStat>, percents: &Vec<String>) -> (r:
    Outcome)
    requires
        total != i64::MIN,
        rows@.len() < i64::MAX,
        percents@.len() == rows@.len(),
    ensures
        says(
            r,
            devices_text(label@, total as int, order::seen(rows@), text::views(percents@)),
        ),
{
    let head = "\n".to_owned().concat(repeat('=', 60).as_str()).concat("\n  FocusFlow 设备统计 - ").concat(label).concat("\n").concat(repeat('=', 60).as_str()).concat("\n  输入总次数: ").concat(fmt_thousands(total).as_str()).concat("（口径：键盘按下 + 鼠标按键 + 滚轮）\n").concat(repeat('-', 60).as_str()).concat("\n");
    if rows.len() == 0 {
        let t = head.concat("  暂无设备数据（功能上线后开始积累）\n").concat(repeat('=', 60).as_str()).concat("\n\n");
        return said(t);
    }
    let lines = device_rows(rows, percents);
    let t = head.concat("  ").concat(pad("排名", 6).as_str()).concat(pad("设备", 44).as_str()).concat(pad("类型", 8).as_str()).concat(pad("占比", 8).as_str()).concat("\n  ").concat(repeat('-', 56).as_str()).concat("\n").concat(lines.as_str()).concat(repeat('=', 60).as_str()).concat("\n\n");
    said(t)
}

/// The lines of the first `n` devices: both names and the key.
pub open spec fn device_key_lines(rows: Seq<devices::StatModel>, n: nat) -> Seq<char>
    decreases n,
{
    if n == 0 {
        Seq::empty()
    } else {
        device_key_lines(rows, (n - 1) as nat)
            + "  展示名: "@
            + rows[n - 1].name
            + "\n  自动名: "@
            + rows[n - 1].auto_name
            + "\n  device_key: "@
            + rows[n - 1].key
            + "\n\n"@
    }
}

/// The devices with their keys.
pub open spec fn device_keys_text(total: int, rows: Seq<devices::StatModel>) -> Seq<char> {
    if rows.len() == 0 {
        "暂无设备数据（设备统计从功能上线后开始积累）\n"@
    } else {
        "\n共 "@ + text::dec(rows.len() as int) + " 个设备，输入总次数 "@ + crate::format::thousands(
            total,
        ) + "\n\n"@ + device_key_lines(rows, rows.len())
    }
}

/// The devices with their keys.
pub fn print_device_keys(total: i64, rows: &Vec<DeviceStat>) -> (r: Outcome)
    requires
        total != i64::MIN,
        rows@.len() < i64::MAX,
    ensures
        says(r, device_keys_text(total as int, order::seen(rows@))),
{
    if rows.len() == 0 {
        return said("暂无设备数据（设备统计从功能上线后开始积累）\n".to_owned());
    }
    let ghost s = order::seen(rows@);
    let mut r: String = String::new();
    let mut i: usize = 0;
    assert(r@ =~= Seq::empty());
    while i < rows.len()
        invariant
            i <= rows@.len(),
            s == order::seen(rows@),
            r@ == device_key_lines(s, i as nat),
        decreases rows.len() - i,
    {
        r = r.concat("  展示名: ").concat(rows[i].name.as_str()).concat("\n  自动名: ").concat(rows[i].auto_name.as_str()).concat("\n  device_key: ").concat(rows[i].key.as_str()).concat("\n\n");
        i = i + 1;
    }
    let t = "\n共 ".to_owned().concat(dec_i64(rows.len() as i64).as_str()).concat(
        " 个设备，输入总次数 ",
    ).concat(fmt_thousands(total).as_str()).concat("\n\n").concat(r.as_str());
    said(t)
}

/// Whether `needle` occurs in one of three texts.
pub open spec fn mentions(
    key: Seq<char>,
    name: Seq<char>,
    auto_name: Seq<char>,
    needle: Seq<char>,
) -> bool {
    ||| text::find_from(key, needle, 0) >= 0
    ||| text::find_from(name, needle, 0) >= 0
    ||| text::find_from(auto_name, needle, 0) >= 0
}

fn occurs(t: &str, needle: &Vec<char>) -> (r: bool)
    ensures
        r == (text::find_from(t@, needle@, 0) >= 0),
{
    let v = chars_of(t);
    match vec_find(&v, needle, 0) {
        Some(_) => true,
        None => false,
    }
}

/// Whether `needle` occurs in one of three texts.
pub fn is_mentioned(key: &str, name: &str, auto_name: &str, needle: &str) -> (r: bool)
    ensures
        r == mentions(key@, name@, auto_name@, needle@),
{
    let n = chars_of(needle);
    occurs(key, &n) || occurs(name, &n) || occurs(auto_name, &n)
}

/// Whether a device is meant by a text, whatever the case of the letters.
pub open spec fn meant(d: devices::StatModel, pattern: Seq<char>) -> bool {
    mentions(
        text::small_letters(d.key),
        text::small_letters(d.name),
        text::small_letters(d.auto_name),
        text::small_letters(pattern),
    )
}

/// The indices of the first `n` devices that a text means.
pub open spec fn meant_indices(
    rows: Seq<devices::StatModel>,
    pattern: Seq<char>,
    n: nat,
) -> Seq<usize>
    decreases n,
{
    if n == 0 {
        Seq::empty()
    } else {
        let r = meant_indices(rows, pattern, (n - 1) as nat);
        if meant(rows[n - 1], pattern) {
            r.push((n - 1) as usize)
        } else {
            r
        }
    }
}

/// The indices of the devices that a text means: it occurs in the key or in one of the
/// names, whatever the case of the letters.
pub fn find_devices(rows: &Vec<DeviceStat>, pattern: &str) -> (r: Vec<usize>)
    ensures
        r@ == meant_indices(order::seen(rows@), pattern@, rows@.len()),
        forall|k: int| 0 <= k < r@.len() ==> (#[trigger] r@[k]) < rows@.len(),
{
    let ghost s = order::seen(rows@);
    let needle = to_small_letters(pattern);
    let mut out: Vec<usize> = Vec::new();
    let mut i: usize = 0;
    assert(out@ =~= Seq::empty());
    while i < rows.len()
        invariant
            i <= rows@.len(),
            s == order::seen(rows@),
            needle@ == text::small_letters(pattern@),
            out@ == meant_indices(s, pattern@, i as nat),
            forall|k: int| 0 <= k < out@.len() ==> (#[trigger] out@[k]) < i,
        decreases rows.len() - i,
    {
        let d = &rows[i];
        let key = to_small_letters(d.key.as_str());
        let name = to_small_letters(d.name.as_str());
        let auto_name = to_small_letters(d.auto_name.as_str());
        assert(s[i as int] == d@);
        if is_mentioned(key.as_str(), name.as_str(), auto_name.as_str(), needle.as_str()) {
            out.push(i);
        }
        i = i + 1;
    }
    out
}

/// The lines of the first `n` devices that were found: the name and the key.
pub open spec fn choice_lines(rows: Seq<devices::StatModel>, found: Seq<usize>, n: nat) -> Seq<char>
    decreases n,
{
    if n == 0 {
        Seq::empty()
    } else {
        choice_lines(rows, found, (n - 1) as nat) + "  "@ + padded(
            rows[found[n - 1] as int].name,
            40,
        ) + " <- "@ + rows[found[n - 1] as int].key + "\n"@
    }
}

/// The one device that was found, or the message where there is none or there are more.
pub open spec fn choice(
    rows: Seq<devices::StatModel>,
    found: Seq<usize>,
    pattern: Seq<char>,
) -> Result<usize, Seq<char>> {
    if found.len() == 0 {
        Err("未找到匹配的设备: "@ + pattern + "\n  用 --device-keys 查看全部设备标识\n"@)
    } else if found.len() == 1 {
        Ok(found[0])
    } else {
        Err(
            "匹配到 "@ + text::dec(found.len() as int)
                + " 个设备，请换更精确的匹配文本（或直接用 device_key）:\n"@ + choice_lines(
                rows,
                found,
                found.len(),
            ),
        )
    }
}

/// The one device that was found, or the message where there is none or there are more.
pub fn choose_device(rows: &Vec<DeviceStat>, found: &Vec<usize>, pattern: &str) -> (r: Result<
    usize,
    String,
>)
    requires
        forall|k: int| 0 <= k < found@.len() ==> (#[trigger] found@[k]) < rows@.len(),
        found@.len() <= i64::MAX,
    ensures
        match r {
            Ok(i) => choice(order::seen(rows@), found@, pattern@) == Ok::<usize, Seq<char>>(i) && i
                < rows@.len(),
            Err(e) => choice(order::seen(rows@), found@, pattern@) == Err::<usize, Seq<char>>(e@),
        },
{
    if found.len() == 0 {
        return Err(
            "未找到匹配的设备: ".to_owned().concat(pattern).concat(
                "\n  用 --device-keys 查看全部设备标识\n",
            ),
        );
    }
    if found.len() == 1 {
        return Ok(found[0]);
    }
    let ghost s = order::seen(rows@);
    let mut r: String = String::new();
    let mut i: usize = 0;
    assert(r@ =~= Seq::empty());
    while i < found.len()
        invariant
            i <= found@.len(),
            s == order::seen(rows@),
            forall|k: int| 0 <= k < found@.len() ==> (#[trigger] found@[k]) < rows@.len(),
            r@ == choice_lines(s, found@, i as nat),
        decreases found.len() - i,
    {
        let at = found[i];
        assert(s[at as int] == rows@[at as int]@);
        r = r.concat("  ").concat(pad(rows[at].name.as_str(), 40).as_str()).concat(" <- ").concat(
            rows[at].key.as_str(),
        ).concat("\n");
        i = i + 1;
    }
    Err(
        "匹配到 ".to_owned().concat(dec_i64(found.len() as i64).as_str()).concat(
            " 个设备，请换更精确的匹配文本（或直接用 device_key）:\n",
        ).concat(r.as_str()),
    )
}

/// The answer to a new alias: it was written, it was taken away, or that failed.
pub fn rename_device(auto_name: &str, saved: &str, failure: Option<&str>) -> (r: Outcome)
    ensures
        match failure {
            Some(e) => fails(r, "写入别名失败: "@ + e@ + "\n"@),
            None => if saved@.len() == 0 {
                says(r, "已还原为自动名: "@ + auto_name@ + "\n"@)
            } else {
                says(r, "已设别名: "@ + auto_name@ + " -> "@ + saved@ + "\n"@)
            },
        },
{
    match failure {
        Some(e) => failed("写入别名失败: ".to_owned().concat(e).concat("\n")),
        None => if saved.is_empty() {
            said("已还原为自动名: ".to_owned().concat(auto_name).concat("\n"))
        } else {
            said(
                "已设别名: ".to_owned().concat(auto_name).concat(" -> ").concat(saved).concat("\n"),
            )
        },
    }
}

// ------------------------------------------------------------------------ maintenance

/// The answer to a compaction: all files were compacted, or those of these years were not.
pub fn vacuum_report(dir: &str, failed_years: &Vec<i32>) -> (r: Outcome)
    ensures
        ({
            let head = "压缩全部年度库（数据目录 "@ + dir@ + "）\n"@;
            if failed_years@.len() == 0 {
                says(r, head + "压缩完成\n"@)
            } else {
                r.out@ == head && r.err@ == "以下年份未能压缩（原因见日志）: "@ + year_list(
                    failed_years@,
                ) + "\n"@ && r.code == 1
            }
        }),
{
    let head = "压缩全部年度库（数据目录 ".to_owned().concat(dir).concat("）\n");
    if failed_years.len() == 0 {
        said(head.concat("压缩完成\n"))
    } else {
        let err = "以下年份未能压缩（原因见日志）: ".to_owned().concat(
            years_in_brackets(failed_years).as_str(),
        ).concat("\n");
        Outcome { out: head, err, code: 1 }
    }
}

/// How many backups to keep.
pub fn backups_to_keep(c: &FocusFlowConfig) -> (r: i64)
    requires
        c.wf(),
    ensures
        r == backup::setting_at_least(c.value("database"@, "max_backups"@), 5, 1),
{
    let n = c.get_int("database", "max_backups", 5);
    if n < 1 {
        1
    } else {
        n
    }
}

/// The answer to a backup: the file, or that there is none.
pub fn backup_report(path: Option<&str>, dir: &str) -> (r: Outcome)
    ensures
        match path {
            Some(p) => says(
                r,
                "备份完成: "@ + p@ + "\n  目录: "@ + dir@ + "（已停用插件的数据会跳过）\n"@,
            ),
            None => fails(r, "备份失败或无可备份的数据库\n"@),
        },
{
    match path {
        Some(p) => said(
            "备份完成: ".to_owned().concat(p).concat("\n  目录: ").concat(dir).concat(
                "（已停用插件的数据会跳过）\n",
            ),
        ),
        None => failed("备份失败或无可备份的数据库\n".to_owned()),
    }
}

/// The answer to a cleanup: how many rows went, and the years whose rows stayed.
pub fn cleanup_report(dir: &str, keep: i64, deleted: i64, failed_years: &Vec<i32>) -> (r: Outcome)
    requires
        deleted != i64::MIN,
    ensures
        ({
            let days = text::dec(keep as int);
            let head = "清理 "@ + days + " 天前的记录（数据目录 "@ + dir@ + "）\n已删除 "@ + days
                + " 天前的记录 "@ + crate::format::thousands(deleted as int) + " 条\n"@;
            if failed_years@.len() == 0 {
                says(r, head)
            } else {
                r.out@ == head && r.err@
                    == "以下年份未能清理（已回滚，未删的行还在；原因见日志）: "@ + year_list(
                    failed_years@,
                ) + "\n"@ && r.code == 1
            }
        }),
{
    let days = dec_i64(keep);
    let head = "清理 ".to_owned().concat(days.as_str()).concat(" 天前的记录（数据目录 ").concat(
        dir,
    ).concat("）\n已删除 ").concat(days.as_str()).concat(" 天前的记录 ").concat(
        fmt_thousands(deleted).as_str(),
    ).concat(" 条\n");
    if failed_years.len() == 0 {
        said(head)
    } else {
        let err = "以下年份未能清理（已回滚，未删的行还在；原因见日志）: ".to_owned().concat(
            years_in_brackets(failed_years).as_str(),
        ).concat("\n");
        Outcome { out: head, err, code: 1 }
    }
}

/// The question before everything is removed.
pub fn reset_prompt(dir: &str, years: &Vec<i32>) -> (r: String)
    ensures
        r@ == "警告：将清空数据目录 "@ + dir@ + " 下这些年份的全部统计记录："@ + year_list(years@)
            + "\n输入 yes 确认: \n"@,
{
    "警告：将清空数据目录 ".to_owned().concat(dir).concat(" 下这些年份的全部统计记录：").concat(
        years_in_brackets(years).as_str(),
    ).concat("\n输入 yes 确认: \n")
}

/// Whether a line answers yes, in letters of either case and with white space around it.
pub fn is_confirmed(line: &str) -> (r: bool)
    ensures
        r == (text::lowered(text::trimmed(line@)) == "yes"@),
{
    str_eq(to_lower(trim(line).as_str()).as_str(), "yes")
}

/// The answer to the removal of everything: `removed` is nothing where it was not confirmed,
/// else the number of rows and the years whose rows stayed.
pub fn reset(removed: Option<(i64, Vec<i32>)>) -> (r: Outcome)
    requires
        removed matches Some(n) ==> n.0 != i64::MIN,
    ensures
        match removed {
            None => says(r, "已取消\n"@),
            Some(n) => if (n.1)@.len() == 0 {
                says(
                    r,
                    "所有统计记录已清空 ("@ + crate::format::thousands(n.0 as int) + " 行)\n"@,
                )
            } else {
                fails(
                    r,
                    "只清掉了一部分：未能完成的年份 [\n"@ + year_lines(
                        (n.1)@,
                        (n.1)@.len(),
                        "    "@,
                        ",\n"@,
                    )
                        + "]（这些年份已回滚，行还在）。先关掉正在运行的 FocusFlow 再重试。\n"@,
                )
            },
        },
{
    match removed {
        None => said("已取消\n".to_owned()),
        Some((deleted, failed_years)) => {
            if failed_years.len() == 0 {
                said(
                    "所有统计记录已清空 (".to_owned().concat(
                        fmt_thousands(deleted).as_str(),
                    ).concat(" 行)\n"),
                )
            } else {
                let t = "只清掉了一部分：未能完成的年份 [\n".to_owned().concat(
                    years_by_line(&failed_years, "    ", ",\n").as_str(),
                ).concat(
                    "]（这些年份已回滚，行还在）。先关掉正在运行的 FocusFlow 再重试。\n",
                );
                failed(t)
            }
        },
    }
}

/// What an import of older data did.
pub struct ImportSummary {
    /// Whether files of years were found.
    pub has_years: bool,
    pub records_by_year: Vec<(i32, i64)>,
    pub copied_aux: Vec<String>,
    pub backed_up_aux: Vec<String>,
    pub skipped: Vec<String>,
    pub errors: Vec<String>,
}

/// The lines of the first `n` years: how many records came in.
pub open spec fn record_lines(s: Seq<(i32, i64)>, n: nat) -> Seq<char>
    decreases n,
{
    if n == 0 {
        Seq::empty()
    } else {
        record_lines(s, (n - 1) as nat) + "  "@ + text::dec(s[n - 1].0 as int) + " 年度键鼠: "@
            + text::dec(s[n - 1].1 as int) + " 条记录\n"@
    }
}

/// The first `n` texts, one to a line behind an indent.
pub open spec fn text_lines(s: Seq<Seq<char>>, n: nat) -> Seq<char>
    decreases n,
{
    if n == 0 {
        Seq::empty()
    } else {
        text_lines(s, (n - 1) as nat) + "    "@ + s[n - 1] + "\n"@
    }
}

fn texts_by_line(s: &Vec<String>) -> (r: String)
    ensures
        r@ == text_lines(text::views(s@), s@.len()),
{
    let ghost v = text::views(s@);
    let mut r: String = String::new();
    let mut i: usize = 0;
    assert(r@ =~= Seq::empty());
    while i < s.len()
        invariant
            i <= s.len(),
            v == text::views(s@),
            r@ == text_lines(v, i as nat),
        decreases s.len() - i,
    {
        assert(v[i as int] == s@[i as int]@);
        r = r.concat("    ").concat(s[i].as_str()).concat("\n");
        i = i + 1;
    }
    r
}

/// A section of a report: nothing where there is nothing to report.
pub open spec fn section(empty: bool, t: Seq<char>) -> Seq<char> {
    if empty {
        Seq::empty()
    } else {
        t
    }
}

/// What an import of older data did.
pub open spec fn import_text(s: ImportSummary) -> Seq<char> {
    "\n=== 旧数据导入完成 ===\n"@ + section(
        s.has_years || s.copied_aux@.len() > 0,
        "未发现可导入的数据\n"@,
    ) + record_lines(s.records_by_year@, s.records_by_year@.len()) + section(
        s.copied_aux@.len() == 0,
        "  附属数据: "@ + text::joined(text::views(s.copied_aux@), ", "@) + "\n"@,
    ) + section(
        s.backed_up_aux@.len() == 0,
        "  原数据已留档（覆盖前）：\n"@ + text_lines(
            text::views(s.backed_up_aux@),
            s.backed_up_aux@.len(),
        ),
    ) + section(
        s.skipped@.len() == 0,
        "  跳过: "@ + text::joined(text::views(s.skipped@), ", "@) + "\n"@,
    ) + section(
        s.errors@.len() == 0,
        "  错误:\n"@ + text_lines(text::views(s.errors@), s.errors@.len()),
    ) + "\n"@
}

fn section_of(empty: bool, t: String) -> (r: String)
    ensures
        r@ == section(empty, t@),
{
    if empty {
        let r = String::new();
        assert(r@ =~= Seq::empty());
        r
    } else {
        t
    }
}

/// The answer to an import of older data: it fails where there were errors, and where
/// `summary` is nothing because the directory `dir` is none.
pub fn import_legacy(dir: &str, summary: Option<ImportSummary>) -> (r: Outcome)
    ensures
        match summary {
            None => fails(r, "旧数据目录不存在或不是目录: "@ + dir@ + "\n"@),
            Some(s) => r.out@ == import_text(s) && r.err@.len() == 0 && r.code == (if s.errors@.len()
                == 0 {
                0int
            } else {
                1
            }),
        },
{
    match summary {
        None => failed("旧数据目录不存在或不是目录: ".to_owned().concat(dir).concat("\n")),
        Some(s) => {
            let mut years: String = String::new();
            let mut i: usize = 0;
            assert(years@ =~= Seq::empty());
            while i < s.records_by_year.len()
                invariant
                    i <= s.records_by_year@.len(),
                    years@ == record_lines(s.records_by_year@, i as nat),
                decreases s.records_by_year.len() - i,
            {
                years = years.concat("  ").concat(
                    dec_i64(s.records_by_year[i].0 as i64).as_str(),
                ).concat(" 年度键鼠: ").concat(dec_i64(s.records_by_year[i].1).as_str()).concat(
                    " 条记录\n",
                );
                i = i + 1;
            }
            let nothing = section_of(
                s.has_years || s.copied_aux.len() > 0,
                "未发现可导入的数据\n".to_owned(),
            );
            let aux = section_of(
                s.copied_aux.len() == 0,
                "  附属数据: ".to_owned().concat(join(&s.copied_aux, ", ").as_str()).concat("\n"),
            );
            let kept = section_of(
                s.backed_up_aux.len() == 0,
                "  原数据已留档（覆盖前）：\n".to_owned().concat(
                    texts_by_line(&s.backed_up_aux).as_str(),
                ),
            );
            let skipped = section_of(
                s.skipped.len() == 0,
                "  跳过: ".to_owned().concat(join(&s.skipped, ", ").as_str()).concat("\n"),
            );
            let errors = section_of(
                s.errors.len() == 0,
                "  错误:\n".to_owned().concat(texts_by_line(&s.errors).as_str()),
            );
            let t = "\n=== 旧数据导入完成 ===\n".to_owned().concat(nothing.as_str()).concat(
                years.as_str(),
            ).concat(aux.as_str()).concat(kept.as_str()).concat(skipped.as_str()).concat(
                errors.as_str(),
            ).concat("\n");
            let code: u8 = if s.errors.len() == 0 {
                0
            } else {
                1
            };
            Outcome { out: t, err: String::new(), code }
        },
    }
}

// ------------------------------------------------------------------------------- laws

/// The keys of a listing are all that were counted, with their counts; those that were used
/// more come first, and those that were used as often keep their order.
pub proof fn lemma_most_used_first(
    s: Seq<(Seq<char>, int)>,
    e: (Seq<char>, int),
    i: int,
    j: int,
)
    ensures
        ({
            let r = most_first(s);
            &&& r.len() == s.len()
            &&& r.contains(e) <==> s.contains(e)
            &&& 0 <= i < j < r.len() ==> r[i].1 >= r[j].1
            &&& order::peers(
                r,
                |a: (Seq<char>, int), b: (Seq<char>, int)| oftener(a, b),
                e,
            ) == order::peers(s, |a: (Seq<char>, int), b: (Seq<char>, int)| oftener(a, b), e)
        }),
{
    let ahead = |a: (Seq<char>, int), b: (Seq<char>, int)| oftener(a, b);
    let r = most_first(s);
    order::lemma_ranked_keeps(s, ahead);
    vstd::seq_lib::to_multiset_contains(s, e);
    vstd::seq_lib::to_multiset_contains(r, e);
    assert forall|a: (Seq<char>, int), b: (Seq<char>, int)| #[trigger] ahead(a, b) implies !ahead(
        b,
        a,
    ) by {}
    assert forall|a: (Seq<char>, int), b: (Seq<char>, int), c: (Seq<char>, int)|
        !(#[trigger] ahead(a, b)) && !(#[trigger] ahead(b, c)) implies !ahead(a, c) by {}
    order::lemma_ranked_in_order(s, ahead);
    order::lemma_ranked_stable(s, ahead, e);
    if 0 <= i < j < r.len() {
        assert(!ahead(r[j], r[i]));
    }
}

proof fn lemma_digits_have_no_case(n: int)
    ensures
        text::lowered(text::dec(n)) == text::dec(n),
        text::dec(n) != "today"@,
        text::dec(n) != "all"@,
{
    let s = text::dec(n);
    if n < 0 {
        text::lemma_dec_nat((-n) as nat);
        assert(s.drop_first() =~= text::dec_nat((-n) as nat));
    } else {
        text::lemma_dec_nat(n as nat);
    }
    assert forall|i: int| 0 <= i < s.len() implies text::lower(#[trigger] s[i]) == s[i] by {
        if n < 0 {
            if i > 0 {
                let d = s.drop_first();
                assert(d[i - 1] == s[i]);
                assert(text::is_digit(d[i - 1]));
            }
        } else {
            assert(text::is_digit(s[i]));
        }
    }
    assert(text::lowered(s) =~= s);
    reveal_strlit("today");
    reveal_strlit("all");
    if s == "today"@ || s == "all"@ {
        assert(s[0] == 't' || s[0] == 'a');
        assert(s[0] == '-' || text::is_digit(s[0]));
    }
}

/// A number from 1 on asks for that many days, up to a hundred years; 0 asks for all time,
/// -1 for today, and any other number is refused.
pub proof fn lemma_numbers_ask_for_days(n: int)
    requires
        i64::MIN <= n <= i64::MAX,
    ensures
        1 <= n <= 36_500 ==> period_of(text::dec(n)) == Ok::<Period, Seq<char>>(
            Period::Days(n as i64),
        ),
        n == 0 ==> period_of(text::dec(n)) == Ok::<Period, Seq<char>>(Period::All),
        n == -1 ==> period_of(text::dec(n)) == Ok::<Period, Seq<char>>(Period::Today),
        n < -1 || n > 36_500 ==> period_of(text::dec(n)) is Err,
{
    lemma_digits_have_no_case(n);
    text::lemma_dec_reads_back(n, i64::MIN as int, i64::MAX as int);
}

/// Days to keep are taken from 1 to ten years; any other number is refused, as is what is no
/// number.
pub proof fn lemma_days_to_keep(n: int, raw: Seq<char>, shown: Seq<char>)
    requires
        i64::MIN <= n <= i64::MAX,
    ensures
        1 <= n <= 3660 ==> keep_days_of(text::dec(n), shown) == Ok::<i64, Seq<char>>(n as i64),
        n < 1 || n > 3660 ==> keep_days_of(text::dec(n), shown) is Err,
        text::int_of(raw) is None ==> keep_days_of(raw, shown) is Err,
{
    text::lemma_dec_reads_back(n, i64::MIN as int, i64::MAX as int);
}

/// Whether one text stands somewhere in another.
pub open spec fn stands_in(t: Seq<char>, needle: Seq<char>) -> bool {
    exists|k: int| k >= 0 && #[trigger] text::occurs_at(t, needle, k)
}

proof fn lemma_stands_in(t: Seq<char>, needle: Seq<char>)
    ensures
        text::find_from(t, needle, 0) >= 0 <==> stands_in(t, needle),
{
    text::lemma_find_from(t, needle, 0);
    let j = text::find_from(t, needle, 0);
    if j >= 0 {
        assert(text::occurs_at(t, needle, j));
    }
    if stands_in(t, needle) {
        let k = choose|k: int| k >= 0 && #[trigger] text::occurs_at(t, needle, k);
        assert(j != -1);
    }
}

/// The devices that a text means are those with it in their key, their name or the name they
/// have by themselves, whatever the case; each once, in the order of the list.
pub proof fn lemma_devices_meant(
    rows: Seq<devices::StatModel>,
    pattern: Seq<char>,
    n: nat,
    i: int,
    a: int,
    b: int,
)
    requires
        n <= rows.len() <= usize::MAX,
    ensures
        ({
            let r = meant_indices(rows, pattern, n);
            &&& 0 <= i < n ==> (r.contains(i as usize) <==> stands_in(
                text::small_letters(rows[i].key),
                text::small_letters(pattern),
            ) || stands_in(text::small_letters(rows[i].name), text::small_letters(pattern))
                || stands_in(text::small_letters(rows[i].auto_name), text::small_letters(pattern)))
            &&& 0 <= a < r.len() ==> r[a] < n
            &&& 0 <= a < b < r.len() ==> r[a] < r[b]
        }),
    decreases n,
{
    if n > 0 {
        let m = (n - 1) as nat;
        let q = meant_indices(rows, pattern, m);
        let r = meant_indices(rows, pattern, n);
        lemma_devices_meant(rows, pattern, m, i, a, b);
        let d = rows[n - 1];
        let p = text::small_letters(pattern);
        lemma_stands_in(text::small_letters(d.key), p);
        lemma_stands_in(text::small_letters(d.name), p);
        lemma_stands_in(text::small_letters(d.auto_name), p);
        if meant(d, pattern) {
            assert(r[r.len() - 1] == (n - 1) as usize);
        }
        if 0 <= i < n {
            let x = i as usize;
            if q.contains(x) {
                let k = choose|k: int| 0 <= k < q.len() && q[k] == x;
                assert(r[k] == x);
                lemma_devices_meant(rows, pattern, m, i, k, k);
            }
            if r.contains(x) {
                let k = choose|k: int| 0 <= k < r.len() && r[k] == x;
                if k < q.len() {
                    assert(q[k] == x);
                    lemma_devices_meant(rows, pattern, m, i, k, k);
                }
            }
        }
    }
}

/// A device is chosen exactly where one is found, and it is that one.
pub proof fn lemma_one_is_chosen(
    rows: Seq<devices::StatModel>,
    found: Seq<usize>,
    pattern: Seq<char>,
)
    ensures
        choice(rows, found, pattern) is Ok <==> found.len() == 1,
        found.len() == 1 ==> choice(rows, found, pattern) == Ok::<usize, Seq<char>>(found[0]),
{
}

/// What a line is filled up to keeps its text and adds blanks behind it.
pub proof fn lemma_columns(s: Seq<char>, w: nat, i: int)
    ensures
        padded(s, w).len() == (if s.len() < w {
            w
        } else {
            s.len()
        }),
        padded(s, w).take(s.len() as int) == s,
        s.len() <= i < padded(s, w).len() ==> padded(s, w)[i] == ' ',
{
    assert(padded(s, w).take(s.len() as int) =~= s);
}

/// A command takes its arguments as they are, and days to keep where the argument is such a
/// number; it is refused where an argument is missing. What deletes or overwrites is never
/// meant by another word than its own.
pub proof fn lemma_arguments_are_taken(args: Seq<Seq<char>>, shown: Seq<char>)
    requires
        args.len() > 0,
    ensures
        args[0] == "--cleanup"@ && args.len() >= 2 ==> (keep_days_of(args[1], shown) matches Ok(n)
            ==> command_of(args, shown) == CommandModel::Cleanup(n)) && (keep_days_of(
            args[1],
            shown,
        ) is Err ==> command_of(args, shown) is Refused),
        args[0] == "--rename-device"@ && args.len() >= 3 ==> command_of(args, shown)
            == CommandModel::RenameDevice(args[1], args[2]),
        args[0] == "--export"@ && args.len() >= 2 ==> command_of(args, shown)
            == CommandModel::Export(args[1]),
        args[0] == "--import-legacy"@ && args.len() >= 2 ==> command_of(args, shown)
            == CommandModel::ImportLegacy(args[1]),
        args.len() == 1 && (args[0] == "--stats"@ || args[0] == "--devices"@ || args[0]
            == "--cleanup"@ || args[0] == "--export"@ || args[0] == "--import-legacy"@ || args[0]
            == "--rename-device"@ || args[0] == "--stats-year"@) ==> command_of(
            args,
            shown,
        ) is Refused,
        command_of(args, shown) is Reset ==> args[0] == "--reset"@,
        command_of(args, shown) is Cleanup ==> args[0] == "--cleanup"@,
        command_of(args, shown) is ImportLegacy ==> args[0] == "--import-legacy"@,
{
    reveal_strlit("-h");
    reveal_strlit("--help");
    reveal_strlit("--stats");
    reveal_strlit("--stats-year");
    reveal_strlit("--list-years");
    reveal_strlit("--devices");
    reveal_strlit("--device-keys");
    reveal_strlit("--rename-device");
    reveal_strlit("--export");
    reveal_strlit("--reset");
    reveal_strlit("--vacuum");
    reveal_strlit("--backup");
    reveal_strlit("--cleanup");
    reveal_strlit("--import-legacy");
    assert("-h"@.len() == 2 && "--help"@.len() == 6 && "--stats"@.len() == 7 && "--reset"@.len()
        == 7);
    assert("--export"@.len() == 8 && "--vacuum"@.len() == 8 && "--backup"@.len() == 8);
    assert("--devices"@.len() == 9 && "--cleanup"@.len() == 9 && "--stats-year"@.len() == 12
        && "--list-years"@.len() == 12);
    assert("--device-keys"@.len() == 13 && "--rename-device"@.len() == 15
        && "--import-legacy"@.len() == 15);
    assert("--devices"@[2] == 'd' && "--cleanup"@[2] == 'c' && "--export"@[2] == 'e'
        && "--rename-device"@[2] == 'r' && "--import-legacy"@[2] == 'i' && "--stats"@[2] == 's');
    assert("--list-years"@[2] == 'l' && "--vacuum"@[2] == 'v' && "--backup"@[2] == 'b'
        && "--reset"@[2] == 'r' && "--help"@[2] == 'h' && "--stats-year"@[2] == 's');
}

/// Statistics and devices are asked for with a period: the one that the argument names; where
/// it names none, the command is refused with the reason.
pub proof fn lemma_period_is_taken(a: Seq<char>, shown: Seq<char>)
    ensures
        command_of(seq!["--stats"@, a], shown) == (match period_of(a) {
            Ok(p) => CommandModel::Stats(p),
            Err(e) => CommandModel::Refused(e + "\n"@),
        }),
        command_of(seq!["--devices"@, a], shown) == (match period_of(a) {
            Ok(p) => CommandModel::Devices(p),
            Err(e) => CommandModel::Refused(e + "\n"@),
        }),
{
    reveal_strlit("-h");
    reveal_strlit("--help");
    reveal_strlit("--stats");
    reveal_strlit("--stats-year");
    reveal_strlit("--list-years");
    reveal_strlit("--devices");
    let s = seq!["--stats"@, a];
    let d = seq!["--devices"@, a];
    assert(s[0] == "--stats"@ && s[1] == a && s.len() == 2);
    assert(d[0] == "--devices"@ && d[1] == a && d.len() == 2);
    assert("--stats"@.len() == 7 && "-h"@.len() == 2 && "--help"@.len() == 6);
    assert("--devices"@.len() == 9 && "--stats-year"@.len() == 12 && "--list-years"@.len() == 12);
}

proof fn lemma_piece(a: Seq<char>, b: Seq<char>, c: Seq<char>)
    ensures
        stands_in(a + b + c, b),
{
    let s = a + b + c;
    let k = a.len() as int;
    assert(s.subrange(k, k + b.len()) =~= b);
    assert(text::occurs_at(s, b, k));
}

proof fn lemma_piece_of_piece(a: Seq<char>, t: Seq<char>, c: Seq<char>, x: Seq<char>)
    requires
        stands_in(t, x),
    ensures
        stands_in(a + t + c, x),
{
    let k = choose|k: int| k >= 0 && #[trigger] text::occurs_at(t, x, k);
    let s = a + t + c;
    let j = a.len() + k;
    assert(s.subrange(j, j + x.len()) =~= t.subrange(k, k + x.len()));
    assert(text::occurs_at(s, x, j));
}

proof fn lemma_starts_with_piece(t: Seq<char>, c: Seq<char>, x: Seq<char>)
    requires
        stands_in(t, x),
    ensures
        stands_in(t + c, x),
{
    let e = Seq::<char>::empty();
    lemma_piece_of_piece(e, t, c, x);
    assert(e + t + c =~= t + c);
}

proof fn lemma_ends_with_piece(a: Seq<char>, t: Seq<char>, x: Seq<char>)
    requires
        stands_in(t, x),
    ensures
        stands_in(a + t, x),
{
    let e = Seq::<char>::empty();
    lemma_piece_of_piece(a, t, e, x);
    assert(a + t + e =~= a + t);
}

/// The line that a listing of statistics has for a row: its place, the key, how often it was
/// used and its part of the whole.
pub open spec fn stat_line(rows: Seq<(Seq<char>, int)>, percents: Seq<Seq<char>>, k: int) -> Seq<
    char,
> {
    "  "@ + padded(text::dec(k + 1), 6) + padded(rows[k].0, 12) + padded(
        crate::format::thousands(rows[k].1),
        12,
    ) + padded(percents[k], 10) + "\n"@
}

proof fn lemma_stat_line(
    rows: Seq<(Seq<char>, int)>,
    percents: Seq<Seq<char>>,
    n: nat,
    k: int,
)
    requires
        0 <= k < n <= rows.len(),
    ensures
        stands_in(stat_lines(rows, percents, n), stat_line(rows, percents, k)),
    decreases n,
{
    let t = stat_lines(rows, percents, (n - 1) as nat);
    let l = stat_line(rows, percents, n - 1);
    let s = stat_lines(rows, percents, n);
    assert(s =~= t + l);
    let e = Seq::<char>::empty();
    if k == n - 1 {
        lemma_piece(t, l, e);
        assert(t + l + e =~= s);
    } else {
        lemma_stat_line(rows, percents, (n - 1) as nat, k);
        lemma_starts_with_piece(t, l, stat_line(rows, percents, k));
    }
}

/// Statistics show the whole count and a line for each of the first twenty rows.
pub proof fn lemma_statistics_are_shown(
    label: Seq<char>,
    total: int,
    rows: Seq<(Seq<char>, int)>,
    percents: Seq<Seq<char>>,
    k: int,
)
    requires
        0 <= k < rows.len(),
        k < 20,
    ensures
        stands_in(stats_text(label, total, rows, percents), stat_line(rows, percents, k)),
        stands_in(
            stats_text(label, total, rows, percents),
            "总活跃次数: "@ + crate::format::thousands(total) + "\n"@,
        ),
{
    let shown: nat = if rows.len() < 20 {
        rows.len()
    } else {
        20
    };
    let lines = stat_lines(rows, percents, shown);
    let l = stat_line(rows, percents, k);
    let n = "总活跃次数: "@ + crate::format::thousands(total) + "\n"@;
    let note = if rows.len() >= 20 {
        "  ... 共 "@ + text::dec(rows.len() as int) + " 种键鼠\n"@
    } else {
        Seq::empty()
    };
    let h0 = heading(label, total);
    let h1 = h0 + "  "@;
    let h2 = h1 + padded("排名"@, 6);
    let h3 = h2 + padded("键鼠"@, 12);
    let h4 = h3 + padded("次数"@, 12);
    let h5 = h4 + padded("占比"@, 10);
    let h6 = h5 + "\n  "@;
    let h7 = h6 + repeated('-', 40);
    let h8 = h7 + "\n"@;
    let s1 = h8 + lines;
    let s2 = s1 + note;
    let s3 = s2 + repeated('=', 50);
    assert(stats_text(label, total, rows, percents) == s3 + "\n\n"@);
    lemma_stat_line(rows, percents, shown, k);
    lemma_ends_with_piece(h8, lines, l);
    lemma_starts_with_piece(s1, note, l);
    lemma_starts_with_piece(s2, repeated('=', 50), l);
    lemma_starts_with_piece(s3, "\n\n"@, l);
    lemma_heading(label, total);
    lemma_starts_with_piece(h0, "  "@, n);
    lemma_starts_with_piece(h1, padded("排名"@, 6), n);
    lemma_starts_with_piece(h2, padded("键鼠"@, 12), n);
    lemma_starts_with_piece(h3, padded("次数"@, 12), n);
    lemma_starts_with_piece(h4, padded("占比"@, 10), n);
    lemma_starts_with_piece(h5, "\n  "@, n);
    lemma_starts_with_piece(h6, repeated('-', 40), n);
    lemma_starts_with_piece(h7, "\n"@, n);
    lemma_starts_with_piece(h8, lines, n);
    lemma_starts_with_piece(s1, note, n);
    lemma_starts_with_piece(s2, repeated('=', 50), n);
    lemma_starts_with_piece(s3, "\n\n"@, n);
}

proof fn lemma_heading(label: Seq<char>, total: int)
    ensures
        stands_in(
            heading(label, total),
            "总活跃次数: "@ + crate::format::thousands(total) + "\n"@,
        ),
        stands_in(heading(label, total), label),
{
    reveal_strlit("\n  总活跃次数: ");
    reveal_strlit("\n  ");
    reveal_strlit("总活跃次数: ");
    assert("\n  总活跃次数: "@ =~= "\n  "@ + "总活跃次数: "@);
    let n = crate::format::thousands(total);
    let t = "总活跃次数: "@ + n + "\n"@;
    let a = "\n"@ + repeated('=', 50) + "\n  FocusFlow 活跃统计 - "@;
    let m = "\n"@ + repeated('=', 50);
    let c = repeated('-', 50) + "\n"@;
    let h = heading(label, total);
    assert(h =~= (a + label + m + "\n  "@) + t + c);
    lemma_piece(a + label + m + "\n  "@, t, c);
    assert(h =~= a + label + (m + "\n  "@ + t + c));
    lemma_piece(a, label, m + "\n  "@ + t + c);
}

/// Beyond the first twenty rows only how many there are shows.
pub proof fn lemma_only_twenty_rows(
    label: Seq<char>,
    total: int,
    a: Seq<(Seq<char>, int)>,
    b: Seq<(Seq<char>, int)>,
    p: Seq<Seq<char>>,
    q: Seq<Seq<char>>,
    year: int,
)
    requires
        a.len() == b.len(),
        forall|k: int| 0 <= k < a.len() && k < 20 ==> #[trigger] a[k] == b[k],
        forall|k: int| 0 <= k < a.len() && k < 20 ==> #[trigger] p[k] == q[k],
    ensures
        stats_text(label, total, a, p) == stats_text(label, total, b, q),
        year_stats_text(year, total, a) == year_stats_text(year, total, b),
{
    let n: nat = if a.len() < 20 {
        a.len()
    } else {
        20
    };
    lemma_same_lines(a, b, p, q, n);
}

proof fn lemma_same_lines(
    a: Seq<(Seq<char>, int)>,
    b: Seq<(Seq<char>, int)>,
    p: Seq<Seq<char>>,
    q: Seq<Seq<char>>,
    n: nat,
)
    requires
        forall|k: int| 0 <= k < n ==> #[trigger] a[k] == b[k],
        forall|k: int| 0 <= k < n ==> #[trigger] p[k] == q[k],
    ensures
        stat_lines(a, p, n) == stat_lines(b, q, n),
        year_stat_lines(a, n) == year_stat_lines(b, n),
    decreases n,
{
    if n > 0 {
        lemma_same_lines(a, b, p, q, (n - 1) as nat);
        assert(a[n - 1] == b[n - 1] && p[n - 1] == q[n - 1]);
    }
}

/// The line that a table of all keys has for a row: its place, the key, how often it was used
/// and its part of the whole.
pub open spec fn csv_line(rows: Seq<(Seq<char>, int)>, percents: Seq<Seq<char>>, k: int) -> Seq<
    char,
> {
    text::dec(k + 1) + ","@ + crate::format::csv(rows[k].0) + ","@ + text::dec(rows[k].1) + ","@
        + percents[k] + "\n"@
}

/// An exported table has a line for each key, in order, and tells the whole count.
pub proof fn lemma_table_is_exported(
    total: int,
    rows: Seq<(Seq<char>, int)>,
    percents: Seq<Seq<char>>,
    now: Seq<char>,
    k: int,
)
    requires
        0 <= k < rows.len(),
    ensures
        stands_in(csv_text(total, rows, percents, now), csv_line(rows, percents, k)),
        csv_lines(rows, percents, (k + 1) as nat) == csv_lines(rows, percents, k as nat) + csv_line(
            rows,
            percents,
            k,
        ),
        stands_in(csv_text(total, rows, percents, now), text::dec(total)),
        stands_in(csv_text(total, rows, percents, now), now),
{
    lemma_csv_line(rows, percents, rows.len(), k);
    let s = csv_text(total, rows, percents, now);
    let a = "﻿# FocusFlow 键鼠活跃统计导出\n# 统计周期 总计\n# 总活跃次数 "@;
    let b = "\n# 导出时间 "@;
    let c = "\n\n排名,键鼠,次数,占比(%)\n"@;
    let l = csv_lines(rows, percents, rows.len());
    assert(s =~= (a + text::dec(total) + b + now + c) + l);
    lemma_ends_with_piece(a + text::dec(total) + b + now + c, l, csv_line(rows, percents, k));
    assert(s =~= a + text::dec(total) + (b + now + c + l));
    lemma_piece(a, text::dec(total), b + now + c + l);
    assert(s =~= (a + text::dec(total) + b) + now + (c + l));
    lemma_piece(a + text::dec(total) + b, now, c + l);
    assert(csv_lines(rows, percents, (k + 1) as nat) =~= csv_lines(rows, percents, k as nat)
        + csv_line(rows, percents, k));
}

proof fn lemma_csv_line(
    rows: Seq<(Seq<char>, int)>,
    percents: Seq<Seq<char>>,
    n: nat,
    k: int,
)
    requires
        0 <= k < n <= rows.len(),
    ensures
        stands_in(csv_lines(rows, percents, n), csv_line(rows, percents, k)),
    decreases n,
{
    let t = csv_lines(rows, percents, (n - 1) as nat);
    let l = csv_line(rows, percents, n - 1);
    assert(csv_lines(rows, percents, n) =~= t + l);
    let e = Seq::<char>::empty();
    if k == n - 1 {
        lemma_piece(t, l, e);
        assert(t + l + e =~= t + l);
    } else {
        lemma_csv_line(rows, percents, (n - 1) as nat, k);
        lemma_starts_with_piece(t, l, csv_line(rows, percents, k));
    }
}

/// The row that an exported page has for a key.
pub open spec fn html_row(
    rows: Seq<(Seq<char>, int)>,
    percents: Seq<Seq<char>>,
    widths: Seq<Seq<char>>,
    k: int,
) -> Seq<char> {
    "<tr><td class=\"rank\">"@ + text::dec(k + 1) + "</td><td class=\"key\">"@
        + crate::format::escaped(rows[k].0) + "</td><td class=\"count\">"@
        + crate::format::thousands(rows[k].1)
        + "</td><td class=\"percent\"><div class=\"bar-container\"><div class=\"bar\" style=\"width:"@
        + widths[k] + "%\"></div><span>"@ + percents[k] + "</span></div></td></tr>"@
}

proof fn lemma_html_row(
    rows: Seq<(Seq<char>, int)>,
    percents: Seq<Seq<char>>,
    widths: Seq<Seq<char>>,
    n: nat,
    k: int,
)
    requires
        0 <= k < n <= rows.len(),
    ensures
        stands_in(html_lines(rows, percents, widths, n), html_row(rows, percents, widths, k)),
    decreases n,
{
    let t = html_lines(rows, percents, widths, (n - 1) as nat);
    let l = html_row(rows, percents, widths, n - 1);
    assert(html_lines(rows, percents, widths, n) =~= t + l);
    let e = Seq::<char>::empty();
    if k == n - 1 {
        lemma_piece(t, l, e);
        assert(t + l + e =~= t + l);
    } else {
        lemma_html_row(rows, percents, widths, (n - 1) as nat, k);
        lemma_starts_with_piece(t, l, html_row(rows, percents, widths, k));
    }
}

/// An exported page has a row for each key, with its name made safe.
pub proof fn lemma_page_is_exported(
    total: int,
    rows: Seq<(Seq<char>, int)>,
    percents: Seq<Seq<char>>,
    widths: Seq<Seq<char>>,
    now: Seq<char>,
    k: int,
) -> (r: (Seq<char>, Seq<char>))
    requires
        0 <= k < rows.len(),
    ensures
        html_text(total, rows, percents, widths, now) == r.0 + html_lines(
            rows,
            percents,
            widths,
            rows.len(),
        ) + r.1,
        stands_in(r.0, crate::format::thousands(total)),
        stands_in(r.0, now),
        stands_in(
            html_text(total, rows, percents, widths, now),
            html_row(rows, percents, widths, k),
        ),
{
    let s = html_text(total, rows, percents, widths, now);
    let l = html_lines(rows, percents, widths, rows.len());
    let th = crate::format::thousands(total);
    let a = "<!DOCTYPE html>\n<html lang=\"zh-CN\">\n<head>\n<meta charset=\"UTF-8\">\n<title>FocusFlow 活跃统计报告</title>\n<style>\n    body { font-family: \"Segoe UI\", \"Microsoft YaHei\", sans-serif; margin: 40px; background: #f5f5f5; }\n    .container { max-width: 800px; margin: 0 auto; background: white; padding: 30px; border-radius: 8px; }\n    h1 { color: #0078d4; }\n    .meta { color: #666; margin-bottom: 20px; }\n    .total { font-size: 28px; font-weight: bold; color: #0078d4; }\n    table { width: 100%; border-collapse: collapse; margin-top: 20px; }\n    th { background: #0078d4; color: white; padding: 12px; }\n    td { padding: 10px; border-bottom: 1px solid #eee; }\n    .bar-container { position: relative; min-width: 200px; }\n    .bar { background: #0078d4; height: 20px; border-radius: 3px; opacity: 0.3; }\n    .bar-container span { position: absolute; left: 8px; top: 2px; }\n</style>\n</head>\n<body>\n<div class=\"container\">\n    <h1>FocusFlow 活跃统计报告</h1>\n    <div class=\"meta\"><div>统计周期：总计</div><div>导出时间："@;
    let b = "</div></div>\n    <div class=\"total\">总活跃次数："@;
    let c = "</div>\n    <table>\n        <thead><tr><th>排名</th><th>键鼠</th><th>次数</th><th>占比</th></tr></thead>\n        <tbody>"@;
    let z = "</tbody>\n    </table>\n</div>\n</body>\n</html>"@;
    let front = a + now + b + th + c;
    assert(s =~= front + l + z);
    lemma_html_row(rows, percents, widths, rows.len(), k);
    lemma_piece_of_piece(front, l, z, html_row(rows, percents, widths, k));
    assert(front =~= a + now + (b + th + c));
    lemma_piece(a, now, b + th + c);
    assert(front =~= (a + now + b) + th + c);
    lemma_piece(a + now + b, th, c);
    (front, z)
}

/// The line that a listing of devices has for one: its place, its name, its kind and its part
/// of the whole.
pub open spec fn device_line(
    rows: Seq<devices::StatModel>,
    percents: Seq<Seq<char>>,
    k: int,
) -> Seq<char> {
    "  "@ + padded(text::dec(k + 1), 6) + padded(rows[k].name, 44) + padded(
        kind_text(rows[k].kind),
        8,
    ) + padded(percents[k], 8) + "\n"@
}

/// Every device of a listing has its line, in order; so it is where the keys of devices are
/// listed, with its name, the name it has by itself and its key.
pub proof fn lemma_devices_are_listed(
    rows: Seq<devices::StatModel>,
    percents: Seq<Seq<char>>,
    n: nat,
    k: int,
)
    requires
        0 <= k < n <= rows.len(),
    ensures
        stands_in(device_lines(rows, percents, n), device_line(rows, percents, k)),
        stands_in(
            device_key_lines(rows, n),
            "  展示名: "@ + rows[k].name + "\n  自动名: "@ + rows[k].auto_name
                + "\n  device_key: "@ + rows[k].key + "\n\n"@,
        ),
    decreases n,
{
    let t = device_lines(rows, percents, (n - 1) as nat);
    let l = device_line(rows, percents, n - 1);
    let u = device_key_lines(rows, (n - 1) as nat);
    let d = rows[n - 1];
    let m = "  展示名: "@ + d.name + "\n  自动名: "@ + d.auto_name + "\n  device_key: "@ + d.key
        + "\n\n"@;
    assert(device_lines(rows, percents, n) =~= t + l);
    assert(device_key_lines(rows, n) =~= u + m);
    let e = Seq::<char>::empty();
    if k == n - 1 {
        lemma_piece(t, l, e);
        assert(t + l + e =~= t + l);
        lemma_piece(u, m, e);
        assert(u + m + e =~= u + m);
    } else {
        lemma_devices_are_listed(rows, percents, (n - 1) as nat, k);
        lemma_starts_with_piece(t, l, device_line(rows, percents, k));
        lemma_starts_with_piece(
            u,
            m,
            "  展示名: "@ + rows[k].name + "\n  自动名: "@ + rows[k].auto_name
                + "\n  device_key: "@ + rows[k].key + "\n\n"@,
        );
    }
}

/// The years of a list are all told, in order, each in its own line.
pub proof fn lemma_years_are_listed(
    years: Seq<i32>,
    n: nat,
    indent: Seq<char>,
    end: Seq<char>,
    k: int,
)
    requires
        0 <= k < n <= years.len(),
    ensures
        stands_in(
            year_lines(years, n, indent, end),
            indent + text::dec(years[k] as int) + end,
        ),
    decreases n,
{
    let t = year_lines(years, (n - 1) as nat, indent, end);
    let l = indent + text::dec(years[n - 1] as int) + end;
    assert(year_lines(years, n, indent, end) =~= t + l);
    let e = Seq::<char>::empty();
    if k == n - 1 {
        lemma_piece(t, l, e);
        assert(t + l + e =~= t + l);
    } else {
        lemma_years_are_listed(years, (n - 1) as nat, indent, end, k);
        lemma_starts_with_piece(t, l, indent + text::dec(years[k] as int) + end);
    }
}

/// A listing of devices has the line of every device; so has that of the keys of devices, and
/// a list of years has every year.
pub proof fn lemma_listings_are_whole(
    label: Seq<char>,
    total: int,
    rows: Seq<devices::StatModel>,
    percents: Seq<Seq<char>>,
    years: Seq<i32>,
    k: int,
    y: int,
)
    requires
        0 <= k < rows.len(),
        0 <= y < years.len(),
    ensures
        stands_in(devices_text(label, total, rows, percents), device_line(rows, percents, k)),
        stands_in(
            device_keys_text(total, rows),
            "  展示名: "@ + rows[k].name + "\n  自动名: "@ + rows[k].auto_name
                + "\n  device_key: "@ + rows[k].key + "\n\n"@,
        ),
        stands_in(years_text(years), "  "@ + text::dec(years[y] as int) + "\n"@),
{
    let l = device_line(rows, percents, k);
    let m = "  展示名: "@ + rows[k].name + "\n  自动名: "@ + rows[k].auto_name
        + "\n  device_key: "@ + rows[k].key + "\n\n"@;
    lemma_devices_are_listed(rows, percents, rows.len(), k);
    let lines = device_lines(rows, percents, rows.len());
    let head = "\n"@ + repeated('=', 60) + "\n  FocusFlow 设备统计 - "@ + label + "\n"@ + repeated(
        '=',
        60,
    ) + "\n  输入总次数: "@ + crate::format::thousands(total)
        + "（口径：键盘按下 + 鼠标按键 + 滚轮）\n"@ + repeated('-', 60) + "\n"@;
    let h8 = head + "  "@ + padded("排名"@, 6) + padded("设备"@, 44) + padded("类型"@, 8) + padded(
        "占比"@,
        8,
    ) + "\n  "@ + repeated('-', 56) + "\n"@;
    let s1 = h8 + lines;
    let s2 = s1 + repeated('=', 60);
    assert(devices_text(label, total, rows, percents) == s2 + "\n\n"@);
    lemma_ends_with_piece(h8, lines, l);
    lemma_starts_with_piece(s1, repeated('=', 60), l);
    lemma_starts_with_piece(s2, "\n\n"@, l);
    let keys = device_key_lines(rows, rows.len());
    let front = "\n共 "@ + text::dec(rows.len() as int) + " 个设备，输入总次数 "@
        + crate::format::thousands(total) + "\n\n"@;
    assert(device_keys_text(total, rows) == front + keys);
    lemma_ends_with_piece(front, keys, m);
    lemma_years_are_listed(years, years.len(), "  "@, "\n"@, y);
    let ys = year_lines(years, years.len(), "  "@, "\n"@);
    let x = "  "@ + text::dec(years[y] as int) + "\n"@;
    assert(years_text(years) == "\n有数据的年份：\n"@ + ys + "\n"@);
    lemma_piece_of_piece("\n有数据的年份：\n"@, ys, "\n"@, x);
}

/// A summary of an import has the line of every year and of every problem.
pub proof fn lemma_import_lines(s: Seq<(i32, i64)>, e: Seq<Seq<char>>, n: nat, m: nat, k: int, j: int)
    requires
        0 <= k < n <= s.len(),
        0 <= j < m <= e.len(),
    ensures
        stands_in(
            record_lines(s, n),
            "  "@ + text::dec(s[k].0 as int) + " 年度键鼠: "@ + text::dec(s[k].1 as int)
                + " 条记录\n"@,
        ),
        stands_in(text_lines(e, m), "    "@ + e[j] + "\n"@),
    decreases n + m,
{
    let z = Seq::<char>::empty();
    let t = record_lines(s, (n - 1) as nat);
    let l = "  "@ + text::dec(s[n - 1].0 as int) + " 年度键鼠: "@ + text::dec(s[n - 1].1 as int)
        + " 条记录\n"@;
    assert(record_lines(s, n) =~= t + l);
    let u = text_lines(e, (m - 1) as nat);
    let w = "    "@ + e[m - 1] + "\n"@;
    assert(text_lines(e, m) =~= u + w);
    if k == n - 1 {
        lemma_piece(t, l, z);
        assert(t + l + z =~= t + l);
    } else {
        lemma_import_lines(s, e, (n - 1) as nat, m, k, j);
        lemma_starts_with_piece(
            t,
            l,
            "  "@ + text::dec(s[k].0 as int) + " 年度键鼠: "@ + text::dec(s[k].1 as int)
                + " 条记录\n"@,
        );
    }
    if j == m - 1 {
        lemma_piece(u, w, z);
        assert(u + w + z =~= u + w);
    } else {
        lemma_import_lines(s, e, n, (m - 1) as nat, k, j);
        lemma_starts_with_piece(u, w, "    "@ + e[j] + "\n"@);
    }
}

} // verus!
