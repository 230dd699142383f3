//! Starting with the system: the command that makes the shortcut, what its failures mean,
//! and whether a shortcut is in force.
use vstd::prelude::*;
use vstd::string::*;

use crate::text;
use crate::text::{
    chars_of, dec_i64, push_char, str_eq, string_of_range, to_small_letters, trim, vec_find,
};

verus! {

/// `s` with each apostrophe doubled.
pub open spec fn doubled(s: Seq<char>) -> Seq<char>
    decreases s.len(),
{
    if s.len() == 0 {
        s
    } else {
        let r = doubled(s.drop_last());
        if s.last() == '\'' {
            r.push('\'').push('\'')
        } else {
            r.push(s.last())
        }
    }
}

/// `s` as a literal of the shell: in apostrophes, those inside doubled.
pub open spec fn quoted(s: Seq<char>) -> Seq<char> {
    seq!['\''] + doubled(s) + seq!['\'']
}

/// `s` as a literal of the shell.
pub fn ps_quote(s: &str) -> (r: String)
    ensures
        r@ == quoted(s@),
{
    let v = chars_of(s);
    let mut r: String = String::new();
    push_char(&mut r, '\'');
    let mut i: usize = 0;
    assert(v@.take(0) =~= Seq::empty());
    assert(r@ =~= seq!['\''] + doubled(v@.take(0)));
    while i < v.len()
        invariant
            i <= v@.len(),
            r@ == seq!['\''] + doubled(v@.take(i as int)),
        decreases v.len() - i,
    {
        let ghost before = r@;
        proof {
            let t1 = v@.take(i as int + 1);
            assert(t1.drop_last() =~= v@.take(i as int));
            assert(t1.last() == v@[i as int]);
        }
        push_char(&mut r, v[i]);
        if v[i] == '\'' {
            push_char(&mut r, '\'');
        }
        assert(r@ =~= seq!['\''] + doubled(v@.take(i as int + 1)));
        i = i + 1;
    }
    push_char(&mut r, '\'');
    assert(v@.take(i as int) =~= s@);
    assert(r@ =~= quoted(s@));
    r
}

/// How many times `c` occurs in `s`.
pub open spec fn count(s: Seq<char>, c: char) -> int
    decreases s.len(),
{
    if s.len() == 0 {
        0
    } else {
        count(s.drop_last(), c) + (if s.last() == c {
            1int
        } else {
            0
        })
    }
}

/// `s` without every second apostrophe of a pair: what a literal with this inside stands
/// for. `open` tells whether an apostrophe waits for its second half.
pub open spec fn undoubled(s: Seq<char>) -> (Seq<char>, bool)
    decreases s.len(),
{
    if s.len() == 0 {
        (Seq::empty(), false)
    } else {
        let r = undoubled(s.drop_last());
        if s.last() == '\'' {
            if r.1 {
                (r.0.push('\''), false)
            } else {
                (r.0, true)
            }
        } else {
            (r.0.push(s.last()), r.1)
        }
    }
}

/// Inside a literal apostrophes come in pairs, so that none ends it early, and read in pairs
/// it stands for the text that was quoted.
pub proof fn lemma_quoted_is_one_literal(s: Seq<char>)
    ensures
        undoubled(doubled(s)) == (s, false),
        count(doubled(s), '\'') == 2 * count(s, '\''),
    decreases s.len(),
{
    if s.len() > 0 {
        let t = s.drop_last();
        let d = doubled(t);
        lemma_quoted_is_one_literal(t);
        assert(t.push(s.last()) =~= s);
        if s.last() == '\'' {
            let one = d.push('\'');
            let two = one.push('\'');
            assert(one.drop_last() =~= d);
            assert(two.drop_last() =~= one);
            assert(undoubled(one) == (t, true));
            assert(undoubled(two) == (t.push('\''), false));
            assert(count(one, '\'') == count(d, '\'') + 1);
            assert(count(two, '\'') == count(one, '\'') + 1);
        } else {
            assert(d.push(s.last()).drop_last() =~= d);
        }
    }
}

/// The command that makes the shortcut.
pub open spec fn command_text(lnk: Seq<char>, exe: Seq<char>, workdir: Seq<char>) -> Seq<char> {
    "$ws = New-Object -ComObject WScript.Shell; $s = $ws.CreateShortcut("@ + quoted(lnk)
        + "); $s.TargetPath = "@ + quoted(exe)
        + "; $s.Arguments = '--hidden'; $s.WorkingDirectory = "@ + quoted(workdir)
        + "; $s.Description = 'FocusFlow - 效率追踪器'; $s.Save()"@
}

/// The command that makes the shortcut at `lnk`, to the program `exe`, which starts in
/// `workdir`.
pub fn shortcut_command(lnk: &str, exe: &str, workdir: &str) -> (r: String)
    ensures
        r@ == command_text(lnk@, exe@, workdir@),
{
    let a = ps_quote(lnk);
    let b = ps_quote(exe);
    let c = ps_quote(workdir);
    "$ws = New-Object -ComObject WScript.Shell; $s = $ws.CreateShortcut(".to_owned().concat(
        a.as_str(),
    ).concat("); $s.TargetPath = ").concat(b.as_str()).concat(
        "; $s.Arguments = '--hidden'; $s.WorkingDirectory = ",
    ).concat(c.as_str()).concat("; $s.Description = 'FocusFlow - 效率追踪器'; $s.Save()")
}

// --------------------------------------------------------------------------- failures

/// The text that `String::from_utf8_lossy` reads in bytes.
pub uninterp spec fn lossy_text(bytes: Seq<u8>) -> Seq<char>;

/// `String::from_utf8_lossy`: valid UTF-8 is read as the text that it encodes; what is read
/// of other bytes is left unsaid, but that it depends on the bytes alone.
#[verifier::external_body]
fn read_lossy(bytes: &[u8]) -> (r: String)
    ensures
        r@ == lossy_text(bytes@),
        vstd::utf8::valid_utf8(bytes@) ==> r@ == vstd::utf8::decode_utf8(bytes@),
{
    String::from_utf8_lossy(bytes).into_owned()
}

/// `s` without the byte order marks at its front.
pub open spec fn unmarked(s: Seq<char>) -> Seq<char>
    decreases s.len(),
{
    if s.len() > 0 && s[0] == '\u{feff}' {
        unmarked(s.drop_first())
    } else {
        s
    }
}

/// What an output says: without byte order marks at its front, and then without white
/// space around it.
pub open spec fn said(s: Seq<char>) -> Seq<char> {
    text::trimmed(unmarked(s))
}

/// What an output says.
pub fn said_text(s: &str) -> (r: String)
    ensures
        r@ == said(s@),
{
    let v = chars_of(s);
    let mut i: usize = 0;
    assert(v@.skip(0) =~= v@);
    while i < v.len() && v[i] == '\u{feff}'
        invariant
            i <= v@.len(),
            unmarked(v@) == unmarked(v@.skip(i as int)),
        decreases v.len() - i,
    {
        assert(v@.skip(i as int).drop_first() =~= v@.skip(i as int + 1));
        i = i + 1;
    }
    let rest = string_of_range(&v, i, v.len());
    assert(rest@ =~= v@.skip(i as int));
    trim(rest.as_str())
}

/// Why a command failed, by what it printed: the error output, or else the output; empty
/// where neither says anything.
pub open spec fn failure_detail(stdout: Seq<char>, stderr: Seq<char>) -> Seq<char> {
    if said(stderr).len() > 0 {
        said(stderr)
    } else {
        said(stdout)
    }
}

/// Why a command failed, by what it printed.
pub fn failure_text(stdout: &str, stderr: &str) -> (r: String)
    ensures
        r@ == failure_detail(stdout@, stderr@),
{
    let e = said_text(stderr);
    if !e.as_str().is_empty() {
        return e;
    }
    said_text(stdout)
}

/// Why a command failed, by the bytes that it printed.
pub fn ps_failure_detail(stdout: &[u8], stderr: &[u8]) -> (r: String)
    ensures
        r@ == failure_detail(lossy_text(stdout@), lossy_text(stderr@)),
{
    let e = read_lossy(stderr);
    let o = read_lossy(stdout);
    failure_text(o.as_str(), e.as_str())
}

/// An exit code as it is shown.
pub open spec fn code_text(code: Option<i32>) -> Seq<char> {
    match code {
        Some(n) => "Some("@ + text::dec(n as int) + ")"@,
        None => "None"@,
    }
}

/// The message for a command that failed.
pub open spec fn failure_message(
    code: Option<i32>,
    attempt: int,
    detail: Seq<char>,
) -> Seq<char> {
    "PowerShell 创建快捷方式失败（退出码 "@ + code_text(code) + "，第 "@ + text::dec(attempt)
        + " 次尝试）: "@ + (if detail.len() == 0 {
        "无任何输出：多半是 PowerShell 自己没起来（机器负载高时实测出现过），稍后再试一次即可"@
    } else {
        detail
    })
}

/// What to do after an attempt to make the shortcut.
pub enum Attempt {
    /// It is made.
    Made,
    /// Try once more.
    Again,
    /// It failed, for this reason.
    Failed(String),
}

/// What to do after the attempt of this number: one that failed without saying why is
/// repeated once.
pub fn after_attempt(success: bool, code: Option<i32>, detail: &str, attempt: u32) -> (r: Attempt)
    ensures
        success ==> r == Attempt::Made,
        !success && detail@.len() == 0 && attempt == 1 ==> r == Attempt::Again,
        !success && !(detail@.len() == 0 && attempt == 1) ==> (r matches Attempt::Failed(m) && m@
            == failure_message(code, attempt as int, detail@)),
{
    if success {
        return Attempt::Made;
    }
    if detail.is_empty() && attempt == 1 {
        return Attempt::Again;
    }
    let c = match code {
        Some(n) => "Some(".to_owned().concat(dec_i64(n as i64).as_str()).concat(")"),
        None => "None".to_owned(),
    };
    let why = if detail.is_empty() {
        "无任何输出：多半是 PowerShell 自己没起来（机器负载高时实测出现过），稍后再试一次即可"
    } else {
        detail
    };
    let m = "PowerShell 创建快捷方式失败（退出码 ".to_owned().concat(c.as_str()).concat(
        "，第 ",
    ).concat(dec_i64(attempt as i64).as_str()).concat(" 次尝试）: ").concat(why);
    Attempt::Failed(m)
}

/// What turning the start with the system on answers, once the shortcut is made or its
/// making failed.
pub fn enable_autostart(failed: Option<&str>) -> (r: (bool, String))
    ensures
        failed is None ==> r.0 && r.1@ == "已启用开机自启，开机后将自动后台运行"@,
        failed is Some ==> !r.0 && r.1@ == "启用开机自启失败: "@ + failed->0@,
{
    match failed {
        None => (true, "已启用开机自启，开机后将自动后台运行".to_owned()),
        Some(e) => (false, "启用开机自启失败: ".to_owned().concat(e)),
    }
}

/// What turning the start with the system off answers: the shortcut is gone, or could not
/// be removed.
pub fn disable_autostart(gone: bool) -> (r: (bool, String))
    ensures
        r.0 == gone,
        gone ==> r.1@ == "已取消开机自启"@,
        !gone ==> r.1@ == "删除启动快捷方式失败"@,
{
    if gone {
        (true, "已取消开机自启".to_owned())
    } else {
        (false, "删除启动快捷方式失败".to_owned())
    }
}

// ------------------------------------------------------------------------ in force

/// Whether the start with the system is on: the shortcut leads to this program, by the
/// resolved paths of both, or an older entry `run_value` names it.
pub open spec fn in_force(
    target: Option<Seq<char>>,
    resolved_exe: Seq<char>,
    exe: Seq<char>,
    run_value: Option<Seq<char>>,
) -> bool {
    ||| target is Some && target->0 == resolved_exe
    ||| run_value is Some && text::find_from(run_value->0, exe, 0) >= 0
}

/// Whether the start with the system is on, by texts in small letters.
pub fn decide_in_force(
    target: Option<&str>,
    resolved_exe: &str,
    exe: &str,
    run_value: Option<&str>,
) -> (r: bool)
    ensures
        r == in_force(text::opt_str(target), resolved_exe@, exe@, text::opt_str(run_value)),
{
    let by_shortcut = match target {
        Some(t) => str_eq(t, resolved_exe),
        None => false,
    };
    if by_shortcut {
        return true;
    }
    match run_value {
        Some(v) => {
            let a = chars_of(v);
            let b = chars_of(exe);
            match vec_find(&a, &b, 0) {
                Some(_) => true,
                None => false,
            }
        },
        None => false,
    }
}

fn opt_small_letters(s: Option<&str>) -> (r: Option<String>)
    ensures
        match s {
            Some(t) => r is Some && r->0@ == text::small_letters(t@),
            None => r is None,
        },
{
    match s {
        Some(t) => Some(to_small_letters(t)),
        None => None,
    }
}

/// The texts in small letters.
pub open spec fn opt_small(s: Option<Seq<char>>) -> Option<Seq<char>> {
    match s {
        Some(t) => Some(text::small_letters(t)),
        None => None,
    }
}

/// Whether the start with the system is on, whatever the case of the letters: the resolved
/// target of the shortcut is the resolved path of this program, or an older entry names
/// this program.
pub fn is_autostart_enabled(
    target: Option<&str>,
    resolved_exe: &str,
    exe: &str,
    run_value: Option<&str>,
) -> (r: bool)
    ensures
        r == in_force(
            opt_small(text::opt_str(target)),
            text::small_letters(resolved_exe@),
            text::small_letters(exe@),
            opt_small(text::opt_str(run_value)),
        ),
{
    let t = opt_small_letters(target);
    let v = opt_small_letters(run_value);
    let e = to_small_letters(resolved_exe);
    let x = to_small_letters(exe);
    let by_target = match &t {
        Some(t) => Some(t.as_str()),
        None => None,
    };
    let by_value = match &v {
        Some(v) => Some(v.as_str()),
        None => None,
    };
    decide_in_force(by_target, e.as_str(), x.as_str(), by_value)
}

/// Autostart is in force where the shortcut leads to the program, or the entry for the start
/// names it somewhere; and nowhere else.
pub proof fn lemma_in_force(
    target: Option<Seq<char>>,
    resolved: Seq<char>,
    exe: Seq<char>,
    entry: Option<Seq<char>>,
    k: int,
)
    ensures
        in_force(Some(resolved), resolved, exe, entry),
        entry is Some && k >= 0 && text::occurs_at(entry->0, exe, k) ==> in_force(
            target,
            resolved,
            exe,
            entry,
        ),
        target != Some(resolved) && entry is None ==> !in_force(target, resolved, exe, entry),
        target != Some(resolved) && in_force(target, resolved, exe, entry) ==> exists|j: int| #[trigger]
            text::occurs_at(entry->0, exe, j),
{
    if entry is Some {
        text::lemma_find_from(entry->0, exe, 0);
        let j = text::find_from(entry->0, exe, 0);
        if j >= 0 {
            assert(text::occurs_at(entry->0, exe, j));
        }
    }
}

/// What is said is the output without marks at its front and white space around it; an error
/// is told by what was said as an error, and where that is nothing by the rest.
pub proof fn lemma_what_is_said(marks: nat, s: Seq<char>, out: Seq<char>)
    requires
        s.len() > 0 ==> s[0] != '\u{feff}',
    ensures
        said(Seq::new(marks, |i: int| '\u{feff}') + s) == text::trimmed(s),
        text::trimmed(s).len() > 0 ==> failure_detail(out, s) == text::trimmed(s),
        text::trimmed(s).len() == 0 ==> failure_detail(out, s) == said(out),
    decreases marks,
{
    let m = Seq::new(marks, |i: int| '\u{feff}');
    let t = m + s;
    if marks > 0 {
        let n = (marks - 1) as nat;
        lemma_what_is_said(n, s, out);
        assert(t.drop_first() =~= Seq::new(n, |i: int| '\u{feff}') + s);
        assert(t[0] == '\u{feff}');
    } else {
        assert(t =~= s);
    }
    assert(unmarked(s) == s);
}

} // verus!
