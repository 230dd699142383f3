//! Display helpers: key groups, digit grouping, and escaping for exports.
use vstd::prelude::*;
use vstd::string::*;

use crate::text::{
    cat2_char, chars_of, dec_u64, push_char, starts_with, str_eq, string_of_range,
};

verus! {

/// The groups of the group statistics, in display order.
pub const KEY_GROUPS: [&'static str; 8] = [
    "字母键",
    "数字键",
    "功能键",
    "修饰键",
    "编辑键",
    "鼠标点击",
    "滚轮",
    "其他",
];

/// The names of the modifier keys.
pub open spec fn modifier_name(s: Seq<char>) -> bool {
    ||| s == "Shift"@
    ||| s == "左Shift"@
    ||| s == "右Shift"@
    ||| s == "Ctrl"@
    ||| s == "左Ctrl"@
    ||| s == "右Ctrl"@
    ||| s == "Alt"@
    ||| s == "左Alt"@
    ||| s == "右Alt"@
    ||| s == "Win"@
    ||| s == "左Win"@
    ||| s == "右Win"@
}

/// The names of the editing and navigation keys.
pub open spec fn edit_name(s: Seq<char>) -> bool {
    ||| s == "空格"@
    ||| s == "回车"@
    ||| s == "退格"@
    ||| s == "Tab"@
    ||| s == "Esc"@
    ||| s == "Delete"@
    ||| s == "Insert"@
    ||| s == "Home"@
    ||| s == "End"@
    ||| s == "PageUp"@
    ||| s == "PageDown"@
    ||| s == "↑"@
    ||| s == "↓"@
    ||| s == "←"@
    ||| s == "→"@
}

/// `F` followed by one or more digits.
pub open spec fn function_name(s: Seq<char>) -> bool {
    s.len() > 1 && s[0] == 'F' && crate::text::all_digits(s.drop_first())
}

pub open spec fn ascii_letter(c: char) -> bool {
    'a' <= c <= 'z' || 'A' <= c <= 'Z'
}

/// The group of a key or mouse name.
pub open spec fn group_of(s: Seq<char>) -> Seq<char> {
    if crate::text::starts(s, "滚轮"@) {
        "滚轮"@
    } else if crate::text::starts(s, "鼠标"@) {
        "鼠标点击"@
    } else if modifier_name(s) {
        "修饰键"@
    } else if function_name(s) {
        "功能键"@
    } else if s.len() == 1 && crate::text::is_digit(s[0]) {
        "数字键"@
    } else if s.len() == 1 && ascii_letter(s[0]) {
        "字母键"@
    } else if edit_name(s) {
        "编辑键"@
    } else {
        "其他"@
    }
}

fn is_modifier_name(s: &str) -> (r: bool)
    ensures
        r == modifier_name(s@),
{
    str_eq(s, "Shift") || str_eq(s, "左Shift") || str_eq(s, "右Shift") || str_eq(s, "Ctrl")
        || str_eq(s, "左Ctrl") || str_eq(s, "右Ctrl") || str_eq(s, "Alt") || str_eq(s, "左Alt")
        || str_eq(s, "右Alt") || str_eq(s, "Win") || str_eq(s, "左Win") || str_eq(s, "右Win")
}

fn is_edit_name(s: &str) -> (r: bool)
    ensures
        r == edit_name(s@),
{
    str_eq(s, "空格") || str_eq(s, "回车") || str_eq(s, "退格") || str_eq(s, "Tab") || str_eq(s, "Esc")
        || str_eq(s, "Delete") || str_eq(s, "Insert") || str_eq(s, "Home") || str_eq(s, "End")
        || str_eq(s, "PageUp") || str_eq(s, "PageDown") || str_eq(s, "↑") || str_eq(s, "↓") || str_eq(
        s,
        "←",
    ) || str_eq(s, "→")
}

fn is_function_name(s: &str) -> (r: bool)
    ensures
        r == function_name(s@),
{
    let v = chars_of(s);
    if v.len() <= 1 || v[0] != 'F' {
        return false;
    }
    let mut i: usize = 1;
    while i < v.len()
        invariant
            1 <= i <= v@.len(),
            v@ == s@,
            forall|j: int| 1 <= j < i ==> crate::text::is_digit(#[trigger] v@[j]),
        decreases v.len() - i,
    {
        if !('0' <= v[i] && v[i] <= '9') {
            assert(s@.drop_first()[i as int - 1] == v@[i as int]);
            return false;
        }
        i = i + 1;
    }
    assert forall|j: int| 0 <= j < s@.drop_first().len() implies crate::text::is_digit(
        #[trigger] s@.drop_first()[j],
    ) by {
        assert(s@.drop_first()[j] == v@[j + 1]);
    }
    true
}

/// The group of a key or mouse name; always one of [`KEY_GROUPS`].
pub fn classify_key(key_name: &str) -> (r: &'static str)
    ensures
        r@ == group_of(key_name@),
        exists|i: int| 0 <= i < 8 && (#[trigger] KEY_GROUPS[i])@ == r@,
{
    if starts_with(key_name, "滚轮") {
        assert(KEY_GROUPS[6]@ == "滚轮"@);
        return "滚轮";
    }
    if starts_with(key_name, "鼠标") {
        assert(KEY_GROUPS[5]@ == "鼠标点击"@);
        return "鼠标点击";
    }
    if is_modifier_name(key_name) {
        assert(KEY_GROUPS[3]@ == "修饰键"@);
        return "修饰键";
    }
    if is_function_name(key_name) {
        assert(KEY_GROUPS[2]@ == "功能键"@);
        return "功能键";
    }
    let v = chars_of(key_name);
    if v.len() == 1 && '0' <= v[0] && v[0] <= '9' {
        assert(KEY_GROUPS[1]@ == "数字键"@);
        return "数字键";
    }
    if v.len() == 1 && (('a' <= v[0] && v[0] <= 'z') || ('A' <= v[0] && v[0] <= 'Z')) {
        assert(KEY_GROUPS[0]@ == "字母键"@);
        return "字母键";
    }
    if is_edit_name(key_name) {
        assert(KEY_GROUPS[4]@ == "编辑键"@);
        return "编辑键";
    }
    assert(KEY_GROUPS[7]@ == "其他"@);
    "其他"
}

/// Digits with a comma before every third digit from the right.
pub open spec fn grouped(d: Seq<char>) -> Seq<char>
    decreases d.len(),
{
    if d.len() <= 3 {
        d
    } else {
        grouped(d.take(d.len() - 3)) + seq![','] + d.skip(d.len() - 3)
    }
}

/// `n` in decimal with its digits grouped.
pub open spec fn thousands(n: int) -> Seq<char> {
    if n < 0 {
        seq!['-'] + grouped(crate::text::dec_nat((-n) as nat))
    } else {
        grouped(crate::text::dec_nat(n as nat))
    }
}

fn group_digits(d: &str) -> (r: String)
    ensures
        r@ == grouped(d@),
{
    let v = chars_of(d);
    let n = v.len();
    if n <= 3 {
        return d.to_owned();
    }
    let mut i: usize = (n - 1) % 3 + 1;
    let mut out: String = string_of_range(&v, 0, i);
    proof {
        assert(v@.subrange(0, i as int) =~= v@.take(i as int));
    }
    while i < n
        invariant
            1 <= i <= n == v@.len(),
            (n - i) % 3 == 0,
            out@ == grouped(v@.take(i as int)),
        decreases n - i,
    {
        push_char(&mut out, ',');
        let part = string_of_range(&v, i, i + 3);
        out.append(part.as_str());
        proof {
            let t = v@.take(i as int + 3);
            assert(t.take(t.len() - 3) =~= v@.take(i as int));
            assert(t.skip(t.len() - 3) =~= v@.subrange(i as int, i as int + 3));
            assert(out@ =~= grouped(t));
        }
        i = i + 3;
    }
    assert(v@.take(i as int) =~= d@);
    out
}

/// `n` with its digits grouped by thousands (1234567 gives "1,234,567").
pub fn fmt_thousands(n: i64) -> (r: String)
    requires
        n != i64::MIN,
    ensures
        r@ == thousands(n as int),
{
    let m: u64 = if n < 0 {
        (-n) as u64
    } else {
        n as u64
    };
    let out = group_digits(dec_u64(m).as_str());
    if n < 0 {
        cat2_char('-', out.as_str())
    } else {
        out
    }
}

/// `s` without the character `c`.
pub open spec fn without(s: Seq<char>, c: char) -> Seq<char>
    decreases s.len(),
{
    if s.len() == 0 {
        s
    } else if s.last() == c {
        without(s.drop_last(), c)
    } else {
        without(s.drop_last(), c).push(s.last())
    }
}

proof fn lemma_without_append(a: Seq<char>, b: Seq<char>, c: char)
    ensures
        without(a + b, c) == without(a, c) + without(b, c),
    decreases b.len(),
{
    if b.len() == 0 {
        assert(a + b =~= a);
        assert(without(a, c) + without(b, c) =~= without(a, c));
    } else {
        assert((a + b).drop_last() =~= a + b.drop_last());
        lemma_without_append(a, b.drop_last(), c);
        assert(without(a + b, c) =~= without(a, c) + without(b, c));
    }
}

proof fn lemma_without_absent(a: Seq<char>, c: char)
    requires
        !a.contains(c),
    ensures
        without(a, c) == a,
    decreases a.len(),
{
    if a.len() > 0 {
        assert(a.contains(a[a.len() - 1]));
        let t = a.drop_last();
        assert forall|i: int| 0 <= i < t.len() implies t[i] != c by {
            assert(a[i] == t[i]);
            assert(a.contains(a[i]));
        }
        lemma_without_absent(t, c);
        assert(t.push(a.last()) =~= a);
    }
}

/// Grouping only inserts commas: without them the digits are back.
pub proof fn lemma_grouped_keeps_digits(d: Seq<char>)
    requires
        !d.contains(','),
    ensures
        without(grouped(d), ',') == d,
    decreases d.len(),
{
    if d.len() <= 3 {
        lemma_without_absent(d, ',');
    } else {
        let a = d.take(d.len() - 3);
        let b = d.skip(d.len() - 3);
        assert forall|i: int| 0 <= i < a.len() implies a[i] != ',' by {
            assert(d.contains(d[i]));
        }
        assert forall|i: int| 0 <= i < b.len() implies b[i] != ',' by {
            assert(d.contains(d[d.len() - 3 + i]));
        }
        lemma_grouped_keeps_digits(a);
        lemma_without_absent(b, ',');
        lemma_without_append(grouped(a) + seq![','], b, ',');
        lemma_without_append(grouped(a), seq![','], ',');
        assert(seq![','].drop_last() =~= Seq::<char>::empty());
        assert(without(Seq::<char>::empty(), ',') == Seq::<char>::empty());
        assert(without(seq![','], ',') == without(seq![','].drop_last(), ','));
        assert(a + Seq::<char>::empty() + b =~= d);
    }
}

/// `s` with each `c` replaced by `with`.
pub open spec fn replaced(s: Seq<char>, c: char, with: Seq<char>) -> Seq<char>
    decreases s.len(),
{
    if s.len() == 0 {
        s
    } else if s.last() == c {
        replaced(s.drop_last(), c, with) + with
    } else {
        replaced(s.drop_last(), c, with).push(s.last())
    }
}

/// `s` with each `c` replaced by `with`.
pub fn replace_char(s: &str, c: char, with: &str) -> (r: String)
    ensures
        r@ == replaced(s@, c, with@),
{
    let v = chars_of(s);
    let mut r: String = String::new();
    let mut i: usize = 0;
    assert(replaced(v@.take(0), c, with@) =~= Seq::<char>::empty());
    while i < v.len()
        invariant
            i <= v@.len(),
            r@ == replaced(v@.take(i as int), c, with@),
        decreases v.len() - i,
    {
        proof {
            assert(v@.take(i as int + 1).drop_last() =~= v@.take(i as int));
        }
        if v[i] == c {
            r.append(with);
        } else {
            push_char(&mut r, v[i]);
        }
        i = i + 1;
    }
    assert(v@.take(i as int) =~= s@);
    r
}

/// The characters that make a spreadsheet read a field as a formula.
pub open spec fn formula_start(c: char) -> bool {
    c == '=' || c == '+' || c == '-' || c == '@' || c == '\t' || c == '\r'
}

/// The characters for which a CSV field must be quoted.
pub open spec fn needs_quotes(c: char) -> bool {
    c == ',' || c == '"' || c == '\n' || c == '\r'
}

/// `s` with an apostrophe in front where it would be read as a formula.
pub open spec fn guarded(s: Seq<char>) -> Seq<char> {
    if s.len() > 0 && formula_start(s[0]) {
        seq!['\''] + s
    } else {
        s
    }
}

/// Whether some character of `s` asks for quotes.
pub open spec fn asks_quotes(s: Seq<char>) -> bool {
    exists|i: int| 0 <= i < s.len() && needs_quotes(#[trigger] s[i])
}

/// `s` as a CSV field.
pub open spec fn csv(s: Seq<char>) -> Seq<char> {
    let g = guarded(s);
    if asks_quotes(g) {
        seq!['"'] + replaced(g, '"', "\"\""@) + seq!['"']
    } else {
        g
    }
}

/// `s` as a CSV field: quoted where it holds a comma, a quote or a line break, and
/// with an apostrophe in front where a spreadsheet would take it for a formula.
pub fn csv_field(s: &str) -> (r: String)
    ensures
        r@ == csv(s@),
{
    let v = chars_of(s);
    let formula = v.len() > 0 && (v[0] == '=' || v[0] == '+' || v[0] == '-' || v[0] == '@' || v[0]
        == '\t' || v[0] == '\r');
    let escaped = if formula {
        cat2_char('\'', s)
    } else {
        s.to_owned()
    };
    let w = chars_of(escaped.as_str());
    let mut quote = false;
    let mut i: usize = 0;
    while i < w.len()
        invariant
            i <= w@.len(),
            quote == exists|j: int| 0 <= j < i && needs_quotes(#[trigger] w@[j]),
        decreases w.len() - i,
    {
        if w[i] == ',' || w[i] == '"' || w[i] == '\n' || w[i] == '\r' {
            assert(needs_quotes(w@[i as int]));
            quote = true;
        }
        i = i + 1;
    }
    if quote {
        let mut r = cat2_char('"', replace_char(escaped.as_str(), '"', "\"\"").as_str());
        push_char(&mut r, '"');
        assert(r@ =~= csv(s@));
        r
    } else {
        escaped
    }
}

/// What stands for `c` in HTML text and attribute values.
pub open spec fn entity(c: char) -> Seq<char> {
    if c == '&' {
        "&amp;"@
    } else if c == '<' {
        "&lt;"@
    } else if c == '>' {
        "&gt;"@
    } else if c == '"' {
        "&quot;"@
    } else if c == '\'' {
        "&#39;"@
    } else {
        seq![c]
    }
}

/// `s` with each special character replaced by its entity.
pub open spec fn escaped(s: Seq<char>) -> Seq<char>
    decreases s.len(),
{
    if s.len() == 0 {
        s
    } else {
        escaped(s.drop_last()) + entity(s.last())
    }
}

/// `s` for use in HTML text and in quoted attribute values.
pub fn html_escape(s: &str) -> (r: String)
    ensures
        r@ == escaped(s@),
{
    let v = chars_of(s);
    let mut r: String = String::new();
    let mut i: usize = 0;
    assert(escaped(v@.take(0)) =~= Seq::<char>::empty());
    while i < v.len()
        invariant
            i <= v@.len(),
            r@ == escaped(v@.take(i as int)),
        decreases v.len() - i,
    {
        proof {
            assert(v@.take(i as int + 1).drop_last() =~= v@.take(i as int));
        }
        let c = v[i];
        let ghost r0 = r@;
        if c == '&' {
            r.append("&amp;");
        } else if c == '<' {
            r.append("&lt;");
        } else if c == '>' {
            r.append("&gt;");
        } else if c == '"' {
            r.append("&quot;");
        } else if c == '\'' {
            r.append("&#39;");
        } else {
            push_char(&mut r, c);
            assert(r@ =~= r0 + entity(c));
        }
        i = i + 1;
    }
    assert(v@.take(i as int) =~= s@);
    r
}

/// A CSV field never begins with a character that starts a formula.
pub proof fn lemma_csv_blocks_formulas(s: Seq<char>)
    ensures
        csv(s).len() > 0 ==> !formula_start(csv(s)[0]),
{
    let g = guarded(s);
    if asks_quotes(g) {
        assert(csv(s)[0] == '"');
    }
}

/// Doubled quotes taken back to single ones.
pub open spec fn undoubled(s: Seq<char>) -> Seq<char>
    decreases s.len(),
{
    if s.len() == 0 {
        s
    } else if s.last() == '"' && s.len() >= 2 {
        undoubled(s.drop_last().drop_last()).push('"')
    } else {
        undoubled(s.drop_last()).push(s.last())
    }
}

proof fn lemma_undoubled(g: Seq<char>)
    ensures
        undoubled(replaced(g, '"', "\"\""@)) == g,
    decreases g.len(),
{
    reveal_strlit("\"\"");
    let q = "\"\""@;
    assert(q.len() == 2 && q[0] == '"' && q[1] == '"');
    if g.len() > 0 {
        let t = g.drop_last();
        lemma_undoubled(t);
        let r = replaced(g, '"', q);
        if g.last() == '"' {
            assert(r.drop_last().drop_last() =~= replaced(t, '"', q));
        } else {
            assert(r.drop_last() =~= replaced(t, '"', q));
        }
        assert(t.push(g.last()) =~= g);
    }
}

/// A quoted CSV field reads back as the guarded text: the quotes around it and the
/// doubling inside are all that quoting adds.
pub proof fn lemma_csv_reads_back(s: Seq<char>)
    requires
        asks_quotes(guarded(s)),
    ensures
        csv(s).len() >= 2,
        csv(s)[0] == '"',
        csv(s).last() == '"',
        undoubled(csv(s).subrange(1, csv(s).len() - 1)) == guarded(s),
{
    let g = guarded(s);
    lemma_undoubled(g);
    assert(csv(s).subrange(1, csv(s).len() - 1) =~= replaced(g, '"', "\"\""@));
}

proof fn lemma_entity_clean(c: char, d: char)
    requires
        d == '<' || d == '>' || d == '"' || d == '\'',
    ensures
        !entity(c).contains(d),
{
    reveal_strlit("&amp;");
    reveal_strlit("&lt;");
    reveal_strlit("&gt;");
    reveal_strlit("&quot;");
    reveal_strlit("&#39;");
}

/// Escaped text holds no angle bracket and no quote of either kind.
pub proof fn lemma_escaped_is_clean(s: Seq<char>, d: char)
    requires
        d == '<' || d == '>' || d == '"' || d == '\'',
    ensures
        !escaped(s).contains(d),
    decreases s.len(),
{
    if s.len() > 0 {
        lemma_escaped_is_clean(s.drop_last(), d);
        lemma_entity_clean(s.last(), d);
        let a = escaped(s.drop_last());
        let b = entity(s.last());
        assert forall|i: int| 0 <= i < (a + b).len() implies (a + b)[i] != d by {
            if i < a.len() {
                assert(a.contains(a[i]));
            } else {
                assert(b.contains(b[i - a.len()]));
            }
        }
    }
}

/// Digits are set off by threes from the right: counted from the right, every fourth
/// character is a comma, and nothing else is.
pub proof fn lemma_commas_by_threes(d: Seq<char>, i: int)
    requires
        d.len() > 0,
        !d.contains(','),
    ensures
        grouped(d).len() == d.len() + (d.len() - 1) / 3,
        0 <= i < grouped(d).len() ==> (grouped(d)[grouped(d).len() - 1 - i] == ',' <==> i % 4 == 3),
    decreases d.len(),
{
    let g = grouped(d);
    if d.len() > 3 {
        let h = d.take(d.len() - 3);
        let t = d.skip(d.len() - 3);
        assert forall|k: int| 0 <= k < h.len() implies h[k] != ',' by {
            assert(d.contains(d[k]));
        }
        lemma_commas_by_threes(h, i - 4);
        if 0 <= i < 3 {
            assert(g[g.len() - 1 - i] == t[2 - i]);
            assert(t[2 - i] == d[d.len() - 1 - i]);
            assert(d.contains(d[d.len() - 1 - i]));
        } else if i == 3 {
            assert(g[g.len() - 4] == ',');
        } else if 4 <= i < g.len() {
            assert(g[g.len() - 1 - i] == grouped(h)[grouped(h).len() - 1 - (i - 4)]);
        }
    } else if 0 <= i < g.len() {
        assert(d.contains(d[d.len() - 1 - i]));
    }
}

/// Letters and digits are groups of their own, and so is what the names of wheels and of mouse
/// buttons begin with.
pub proof fn lemma_groups_of_names(c: char, rest: Seq<char>)
    ensures
        ascii_letter(c) ==> group_of(seq![c]) == "字母键"@,
        crate::text::is_digit(c) ==> group_of(seq![c]) == "数字键"@,
        group_of("滚轮"@ + rest) == "滚轮"@,
        group_of("鼠标"@ + rest) == "鼠标点击"@,
{
    reveal_strlit("滚轮");
    reveal_strlit("鼠标");
    reveal_strlit("Shift");
    reveal_strlit("左Shift");
    reveal_strlit("右Shift");
    reveal_strlit("Ctrl");
    reveal_strlit("左Ctrl");
    reveal_strlit("右Ctrl");
    reveal_strlit("Alt");
    reveal_strlit("左Alt");
    reveal_strlit("右Alt");
    reveal_strlit("Win");
    reveal_strlit("左Win");
    reveal_strlit("右Win");
    let w = "滚轮"@ + rest;
    let m = "鼠标"@ + rest;
    assert(w.take(2) =~= "滚轮"@);
    assert(m.take(2) =~= "鼠标"@);
    assert(m[0] != "滚轮"@[0]);
    if m.take(2) == "滚轮"@ {
        assert(m.take(2)[0] == "滚轮"@[0]);
    }
}

/// Of several texts one after the other each is escaped by itself, and a character that
/// means nothing stays.
pub proof fn lemma_escaped_in_pieces(a: Seq<char>, b: Seq<char>, c: char)
    ensures
        escaped(a + b) == escaped(a) + escaped(b),
        c != '&' && c != '<' && c != '>' && c != '"' && c != '\'' ==> escaped(seq![c]) == seq![c],
        escaped(seq!['&']) == "&amp;"@,
        escaped(seq!['<']) == "&lt;"@,
        escaped(seq!['>']) == "&gt;"@,
    decreases b.len(),
{
    if b.len() == 0 {
        assert(a + b =~= a);
        assert(escaped(a) + escaped(b) =~= escaped(a));
    } else {
        lemma_escaped_in_pieces(a, b.drop_last(), c);
        assert((a + b).drop_last() =~= a + b.drop_last());
        assert(escaped(a + b) =~= escaped(a) + escaped(b));
    }
    assert forall|x: char| #[trigger] escaped(seq![x]) == entity(x) by {
        let s = seq![x];
        assert(s.drop_last() =~= Seq::empty());
        assert(escaped(s.drop_last()) =~= Seq::empty());
        assert(escaped(s) =~= entity(x));
    }
}

/// A number below zero is that above zero with a sign in front; one above zero has the digits
/// that it is written with, set off by commas.
pub proof fn lemma_thousands(n: int)
    requires
        n >= 0,
    ensures
        n > 0 ==> thousands(-n) == seq!['-'] + thousands(n),
        without(thousands(n), ',') == crate::text::dec(n),
        n < 1000 ==> thousands(n) == crate::text::dec(n),
{
    let d = crate::text::dec_nat(n as nat);
    crate::text::lemma_dec_nat(n as nat);
    if d.contains(',') {
        let i = choose|i: int| 0 <= i < d.len() && d[i] == ',';
        assert(crate::text::is_digit(d[i]));
    }
    lemma_grouped_keeps_digits(d);
    reveal_with_fuel(crate::text::dec_nat, 4);
}

} // verus!
