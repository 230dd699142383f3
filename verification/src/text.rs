//! Text as sequences of characters: trimming, splitting, searching, casing,
//! ordering and decimal numbers.
use vstd::prelude::*;
use vstd::string::*;

verus! {

/// `String::push`: appends one character to the end of the string.
#[verifier::external_body]
pub(crate) fn push_char(s: &mut String, c: char)
    ensures
        final(s)@ == old(s)@.push(c),
{
    s.push(c)
}

/// The characters of a string that may be missing.
pub open spec fn opt_text(o: Option<String>) -> Option<Seq<char>> {
    match o {
        Some(s) => Some(s@),
        None => None,
    }
}

/// The characters of a string that may be missing.
pub open spec fn opt_str(o: Option<&str>) -> Option<Seq<char>> {
    match o {
        Some(s) => Some(s@),
        None => None,
    }
}

/// A copy of a string that may be missing.
pub fn opt_dup(o: &Option<String>) -> (r: Option<String>)
    ensures
        opt_text(r) == opt_text(*o),
{
    match o {
        Some(s) => Some(s.clone()),
        None => None,
    }
}

/// A copy of a string that may be missing.
pub fn opt_own(o: Option<&str>) -> (r: Option<String>)
    ensures
        opt_text(r) == opt_str(o),
{
    match o {
        Some(s) => Some(s.to_owned()),
        None => None,
    }
}

/// The characters of each string.
pub open spec fn views(v: Seq<String>) -> Seq<Seq<char>> {
    Seq::new(v.len(), |i: int| v[i]@)
}

/// The characters of `s`, in order.
pub fn chars_of(s: &str) -> (r: Vec<char>)
    ensures
        r@ == s@,
{
    let mut r: Vec<char> = Vec::new();
    for c in it: s.chars()
        invariant
            r@ == s@.take(it.index() as int),
            it.seq() == s@,
    {
        proof {
            let i: int = it.index() as int;
            assert(s@.take(i + 1) =~= s@.take(i).push(s@[i]));
        }
        r.push(c);
    }
    assert(s@.take(s@.len() as int) =~= s@);
    r
}

/// The string of the characters `v[from..to]`.
pub fn string_of_range(v: &Vec<char>, from: usize, to: usize) -> (r: String)
    requires
        from <= to <= v@.len(),
    ensures
        r@ == v@.subrange(from as int, to as int),
{
    let mut r: String = String::new();
    let mut i: usize = from;
    assert(v@.subrange(from as int, from as int) =~= Seq::<char>::empty());
    while i < to
        invariant
            from <= i <= to <= v@.len(),
            r@ == v@.subrange(from as int, i as int),
        decreases to - i,
    {
        assert(v@.subrange(from as int, i as int + 1) =~= v@.subrange(from as int, i as int).push(
            v@[i as int],
        ));
        push_char(&mut r, v[i]);
        i = i + 1;
    }
    r
}

/// Whether two strings hold the same characters.
pub fn str_eq(a: &str, b: &str) -> (r: bool)
    ensures
        r == (a@ == b@),
{
    a.to_owned() == b.to_owned()
}

/// `a` followed by `b`.
pub fn cat2(a: &str, b: &str) -> (r: String)
    ensures
        r@ == a@ + b@,
{
    a.to_owned().concat(b)
}

/// `a`, `b` and `c` in a row.
pub fn cat3(a: &str, b: &str, c: &str) -> (r: String)
    ensures
        r@ == a@ + b@ + c@,
{
    a.to_owned().concat(b).concat(c)
}

// ---------------------------------------------------------------- white space

/// The white space characters of Unicode.
pub open spec fn is_space(c: char) -> bool {
    let n = c as u32;
    ||| 0x09 <= n <= 0x0D
    ||| n == 0x20
    ||| n == 0x85
    ||| n == 0xA0
    ||| n == 0x1680
    ||| 0x2000 <= n <= 0x200A
    ||| n == 0x2028
    ||| n == 0x2029
    ||| n == 0x202F
    ||| n == 0x205F
    ||| n == 0x3000
}

/// Whether `c` is white space.
pub fn char_is_space(c: char) -> (r: bool)
    ensures
        r == is_space(c),
{
    let n: u32 = c as u32;
    (0x09 <= n && n <= 0x0D) || n == 0x20 || n == 0x85 || n == 0xA0 || n == 0x1680 || (0x2000 <= n
        && n <= 0x200A) || n == 0x2028 || n == 0x2029 || n == 0x202F || n == 0x205F || n == 0x3000
}

/// `s` without the white space at its front.
pub open spec fn trim_front(s: Seq<char>) -> Seq<char>
    decreases s.len(),
{
    if s.len() > 0 && is_space(s[0]) {
        trim_front(s.drop_first())
    } else {
        s
    }
}

/// `s` without the white space at its back.
pub open spec fn trim_back(s: Seq<char>) -> Seq<char>
    decreases s.len(),
{
    if s.len() > 0 && is_space(s.last()) {
        trim_back(s.drop_last())
    } else {
        s
    }
}

/// `s` without the white space around it.
pub open spec fn trimmed(s: Seq<char>) -> Seq<char> {
    trim_back(trim_front(s))
}

/// Whether `s` holds nothing but white space.
pub open spec fn is_blank(s: Seq<char>) -> bool {
    trimmed(s).len() == 0
}

/// What is left of the white space at the front is a suffix.
pub proof fn lemma_trim_front(s: Seq<char>)
    ensures
        trim_front(s).len() <= s.len(),
        trim_front(s) == s.subrange(s.len() - trim_front(s).len(), s.len() as int),
        trim_front(s).len() > 0 ==> !is_space(trim_front(s)[0]),
        forall|i: int| 0 <= i < s.len() - trim_front(s).len() ==> is_space(#[trigger] s[i]),
    decreases s.len(),
{
    if s.len() > 0 && is_space(s[0]) {
        let t = s.drop_first();
        lemma_trim_front(t);
        let k = t.len() - trim_front(t).len();
        assert(t.subrange(k, t.len() as int) =~= s.subrange(k + 1, s.len() as int));
        assert forall|i: int| 0 <= i < s.len() - trim_front(s).len() implies is_space(
            #[trigger] s[i],
        ) by {
            if i > 0 {
                assert(t[i - 1] == s[i]);
            }
        }
    } else {
        assert(s =~= s.subrange(0, s.len() as int));
    }
}

/// What is left of the white space at the back is a prefix.
pub proof fn lemma_trim_back(s: Seq<char>)
    ensures
        trim_back(s).len() <= s.len(),
        trim_back(s) == s.take(trim_back(s).len() as int),
        trim_back(s).len() > 0 ==> !is_space(trim_back(s).last()),
        forall|i: int| trim_back(s).len() <= i < s.len() ==> is_space(#[trigger] s[i]),
    decreases s.len(),
{
    if s.len() > 0 && is_space(s.last()) {
        let t = s.drop_last();
        lemma_trim_back(t);
        assert(t.take(trim_back(t).len() as int) =~= s.take(trim_back(t).len() as int));
        assert forall|i: int| trim_back(s).len() <= i < s.len() implies is_space(#[trigger] s[i]) by {
            if i < t.len() {
                assert(t[i] == s[i]);
            }
        }
    } else {
        assert(s =~= s.take(s.len() as int));
    }
}

/// Trimming twice changes nothing more.
pub proof fn lemma_trimmed_idempotent(s: Seq<char>)
    ensures
        trimmed(trimmed(s)) == trimmed(s),
        trimmed(s).len() <= s.len(),
{
    let f = trim_front(s);
    lemma_trim_front(s);
    lemma_trim_back(f);
    let t = trim_back(f);
    if t.len() > 0 {
        assert(t[0] == f[0]);
    }
    assert(trim_front(t) == t);
    assert(trim_back(t) == t);
}

/// The range of `v` that is left after trimming.
fn trim_range(v: &Vec<char>) -> (r: (usize, usize))
    ensures
        r.0 <= r.1 <= v@.len(),
        v@.subrange(r.0 as int, r.1 as int) == trimmed(v@),
{
    let ghost s = v@;
    let n = v.len();
    let mut a: usize = 0;
    assert(s.subrange(0, n as int) =~= s);
    while a < n && char_is_space(v[a])
        invariant
            a <= n == v@.len(),
            s == v@,
            trim_front(s.subrange(a as int, n as int)) == trim_front(s),
        decreases n - a,
    {
        assert(s.subrange(a as int, n as int).drop_first() =~= s.subrange(a as int + 1, n as int));
        a = a + 1;
    }
    let ghost f = s.subrange(a as int, n as int);
    assert(trim_front(s) == f);
    let mut b: usize = n;
    while b > a && char_is_space(v[b - 1])
        invariant
            a <= b <= n == v@.len(),
            s == v@,
            f == s.subrange(a as int, n as int),
            trim_back(s.subrange(a as int, b as int)) == trim_back(f),
        decreases b,
    {
        assert(s.subrange(a as int, b as int).drop_last() =~= s.subrange(a as int, b as int - 1));
        b = b - 1;
    }
    (a, b)
}

/// `s` without the white space around it.
pub fn trim(s: &str) -> (r: String)
    ensures
        r@ == trimmed(s@),
{
    let v = chars_of(s);
    let (a, b) = trim_range(&v);
    string_of_range(&v, a, b)
}

/// Whether `s` holds nothing but white space.
pub fn blank(s: &str) -> (r: bool)
    ensures
        r == is_blank(s@),
{
    let v = chars_of(s);
    let (a, b) = trim_range(&v);
    a == b
}

// ------------------------------------------------------------------ splitting

/// The pieces of `s` between the occurrences of `c`; there is always one more
/// piece than there are occurrences.
pub open spec fn split_on(s: Seq<char>, c: char) -> Seq<Seq<char>>
    decreases s.len(),
{
    if s.len() == 0 {
        seq![Seq::<char>::empty()]
    } else {
        let r = split_on(s.drop_last(), c);
        if s.last() == c {
            r.push(Seq::empty())
        } else {
            r.update(r.len() - 1, r.last().push(s.last()))
        }
    }
}

/// There is at least one piece, and no piece holds the separator.
pub proof fn lemma_split_on(s: Seq<char>, c: char)
    ensures
        split_on(s, c).len() >= 1,
        forall|i: int| 0 <= i < split_on(s, c).len() ==> !(#[trigger] split_on(s, c)[i]).contains(c),
    decreases s.len(),
{
    if s.len() > 0 {
        let r = split_on(s.drop_last(), c);
        lemma_split_on(s.drop_last(), c);
        let t = split_on(s, c);
        assert forall|i: int| 0 <= i < t.len() implies !(#[trigger] t[i]).contains(c) by {
            if s.last() == c {
                if i < r.len() {
                    assert(t[i] == r[i]);
                }
            } else if i == r.len() - 1 {
                assert(!r[i].contains(c));
                assert forall|j: int| 0 <= j < t[i].len() implies t[i][j] != c by {
                    if j < r[i].len() {
                        assert(r[i][j] == t[i][j]);
                        assert(r[i].contains(r[i][j]));
                    }
                }
            } else {
                assert(t[i] == r[i]);
            }
        }
    }
}

/// What follows a separator and holds none is the last piece.
pub proof fn lemma_split_last(a: Seq<char>, c: char, b: Seq<char>)
    requires
        !b.contains(c),
    ensures
        split_on(a + seq![c] + b, c) == split_on(a, c).push(b),
    decreases b.len(),
{
    let s = a + seq![c] + b;
    if b.len() == 0 {
        assert(s.drop_last() =~= a);
        assert(s.last() == c);
        assert(b =~= Seq::empty());
    } else {
        let t = b.drop_last();
        assert forall|j: int| 0 <= j < t.len() implies t[j] != c by {
            assert(b[j] == t[j]);
            assert(b.contains(b[j]));
        }
        lemma_split_last(a, c, t);
        assert(b.contains(b.last()));
        assert(s.drop_last() =~= a + seq![c] + t);
        assert(s.last() == b.last());
        assert(t.push(b.last()) =~= b);
        let r = split_on(a, c).push(t);
        assert(r.update(r.len() - 1, b) =~= split_on(a, c).push(b));
    }
}

/// Splitting undoes joining, where no piece holds the separator.
pub proof fn lemma_split_joined(parts: Seq<Seq<char>>, c: char)
    requires
        parts.len() > 0,
        forall|i: int| 0 <= i < parts.len() ==> !(#[trigger] parts[i]).contains(c),
    ensures
        split_on(joined(parts, seq![c]), c) == parts,
    decreases parts.len(),
{
    if parts.len() == 1 {
        lemma_split_single(parts[0], c);
        assert(parts =~= seq![parts[0]]);
    } else {
        let front = parts.drop_last();
        lemma_split_joined(front, c);
        lemma_split_last(joined(front, seq![c]), c, parts.last());
        assert(front.push(parts.last()) =~= parts);
    }
}

/// A text without the separator is one piece.
pub proof fn lemma_split_single(s: Seq<char>, c: char)
    requires
        !s.contains(c),
    ensures
        split_on(s, c) == seq![s],
    decreases s.len(),
{
    if s.len() > 0 {
        let t = s.drop_last();
        assert forall|j: int| 0 <= j < t.len() implies t[j] != c by {
            assert(s[j] == t[j]);
            assert(s.contains(s[j]));
        }
        lemma_split_single(t, c);
        assert(s.contains(s[s.len() - 1]));
        assert(t.push(s.last()) =~= s);
        assert(split_on(s, c) =~= seq![s]);
    } else {
        assert(s =~= Seq::<char>::empty());
    }
}

/// The pieces of `s` between the occurrences of `c`.
pub fn split_char(s: &str, c: char) -> (r: Vec<String>)
    ensures
        views(r@) == split_on(s@, c),
{
    let v = chars_of(s);
    let mut r: Vec<String> = Vec::new();
    let mut cur: String = String::new();
    let mut i: usize = 0;
    proof {
        assert(views(r@).push(cur@) =~= split_on(v@.take(0), c));
    }
    while i < v.len()
        invariant
            i <= v@.len(),
            views(r@).push(cur@) == split_on(v@.take(i as int), c),
        decreases v.len() - i,
    {
        let ghost r0 = r@;
        let ghost c0 = cur@;
        let ghost old_pieces = split_on(v@.take(i as int), c);
        proof {
            assert(v@.take(i as int + 1).drop_last() =~= v@.take(i as int));
            assert(old_pieces.last() == c0);
        }
        if v[i] == c {
            r.push(cur);
            cur = String::new();
            assert(views(r@) =~= views(r0).push(c0));
        } else {
            push_char(&mut cur, v[i]);
        }
        assert(views(r@).push(cur@) =~= split_on(v@.take(i as int + 1), c));
        i = i + 1;
    }
    assert(v@.take(i as int) =~= s@);
    let ghost r0 = r@;
    let ghost c0 = cur@;
    r.push(cur);
    assert(views(r@) =~= views(r0).push(c0));
    r
}

/// The pieces joined with `sep` between them.
pub open spec fn joined(parts: Seq<Seq<char>>, sep: Seq<char>) -> Seq<char>
    decreases parts.len(),
{
    if parts.len() == 0 {
        Seq::empty()
    } else if parts.len() == 1 {
        parts[0]
    } else {
        joined(parts.drop_last(), sep) + sep + parts.last()
    }
}

/// The pieces joined with `sep` between them.
pub fn join(parts: &Vec<String>, sep: &str) -> (r: String)
    ensures
        r@ == joined(views(parts@), sep@),
{
    let mut r: String = String::new();
    let mut i: usize = 0;
    assert(joined(views(parts@).take(0), sep@) =~= Seq::<char>::empty());
    while i < parts.len()
        invariant
            i <= parts@.len(),
            r@ == joined(views(parts@).take(i as int), sep@),
        decreases parts.len() - i,
    {
        proof {
            let t = views(parts@).take(i as int + 1);
            assert(t.drop_last() =~= views(parts@).take(i as int));
            assert(t.last() == parts@[i as int]@);
        }
        if i > 0 {
            r.append(sep);
        }
        r.append(parts[i].as_str());
        assert(r@ =~= joined(views(parts@).take(i as int + 1), sep@));
        i = i + 1;
    }
    assert(views(parts@).take(i as int) =~= views(parts@));
    r
}

// ------------------------------------------------------------------ searching

/// Whether `p` occurs in `s` at position `i`.
pub open spec fn occurs_at(s: Seq<char>, p: Seq<char>, i: int) -> bool {
    0 <= i && i + p.len() <= s.len() && s.subrange(i, i + p.len()) == p
}

/// The first position from `from` on at which `p` occurs in `s`, or -1.
pub open spec fn find_from(s: Seq<char>, p: Seq<char>, from: int) -> int
    decreases s.len() + 1 - from,
{
    if from < 0 || from + p.len() > s.len() {
        -1
    } else if occurs_at(s, p, from) {
        from
    } else {
        find_from(s, p, from + 1)
    }
}

/// The last position at which `p` occurs in `s` before or at `upto`, or -1.
pub open spec fn rfind_from(s: Seq<char>, p: Seq<char>, upto: int) -> int
    decreases upto + 1,
{
    if upto < 0 {
        -1
    } else if occurs_at(s, p, upto) {
        upto
    } else {
        rfind_from(s, p, upto - 1)
    }
}

/// Whether `s` begins with `p`.
pub open spec fn starts(s: Seq<char>, p: Seq<char>) -> bool {
    p.len() <= s.len() && s.take(p.len() as int) == p
}

/// The search result is the first occurrence, and -1 means there is none.
pub proof fn lemma_find_from(s: Seq<char>, p: Seq<char>, from: int)
    requires
        0 <= from,
    ensures
        find_from(s, p, from) == -1 || find_from(s, p, from) >= from,
        find_from(s, p, from) >= 0 ==> occurs_at(s, p, find_from(s, p, from)),
        forall|j: int|
            from <= j && (find_from(s, p, from) == -1 || j < find_from(s, p, from))
                ==> !#[trigger] occurs_at(s, p, j),
    decreases s.len() + 1 - from,
{
    if from + p.len() <= s.len() && !occurs_at(s, p, from) {
        lemma_find_from(s, p, from + 1);
        assert forall|j: int|
            from <= j && (find_from(s, p, from) == -1 || j < find_from(s, p, from)) implies
            !#[trigger] occurs_at(s, p, j) by {
            if j > from {
                assert(from + 1 <= j);
            }
        }
    }
}

/// Whether `p` occurs in `v` at `at`.
pub fn vec_occurs_at(v: &Vec<char>, p: &Vec<char>, at: usize) -> (r: bool)
    requires
        at <= v@.len(),
    ensures
        r == occurs_at(v@, p@, at as int),
{
    if p.len() > v.len() - at {
        return false;
    }
    let mut i: usize = 0;
    while i < p.len()
        invariant
            i <= p@.len(),
            at + p.len() <= v.len(),
            forall|j: int| 0 <= j < i ==> v@[at + j] == #[trigger] p@[j],
        decreases p.len() - i,
    {
        if v[at + i] != p[i] {
            proof {
                assert(v@.subrange(at as int, at + p@.len())[i as int] == v@[at + i]);
            }
            return false;
        }
        i = i + 1;
    }
    assert(v@.subrange(at as int, at + p@.len()) =~= p@);
    true
}

/// The last position at which `p` occurs in `v`.
pub fn vec_rfind(v: &Vec<char>, p: &Vec<char>) -> (r: Option<usize>)
    ensures
        match r {
            Some(i) => i as int == rfind_from(v@, p@, v@.len() as int) && i + p@.len() <= v@.len(),
            None => rfind_from(v@, p@, v@.len() as int) == -1,
        },
{
    let mut i: usize = v.len();
    let mut more = true;
    while more
        invariant
            i <= v@.len(),
            more ==> rfind_from(v@, p@, v@.len() as int) == rfind_from(v@, p@, i as int),
            !more ==> rfind_from(v@, p@, v@.len() as int) == -1,
        decreases i + (if more { 1int } else { 0int }),
    {
        if vec_occurs_at(v, p, i) {
            return Some(i);
        }
        if i == 0 {
            assert(rfind_from(v@, p@, -1) == -1);
            more = false;
        } else {
            i = i - 1;
        }
    }
    None
}

/// The first position from `from` on at which `p` occurs in `v`.
pub fn vec_find(v: &Vec<char>, p: &Vec<char>, from: usize) -> (r: Option<usize>)
    requires
        from <= v@.len(),
    ensures
        match r {
            Some(i) => i as int == find_from(v@, p@, from as int),
            None => find_from(v@, p@, from as int) == -1,
        },
{
    let mut i: usize = from;
    while i < v.len() && p.len() <= v.len() - i
        invariant
            from <= i <= v@.len(),
            find_from(v@, p@, i as int) == find_from(v@, p@, from as int),
        decreases v.len() - i,
    {
        if vec_occurs_at(v, p, i) {
            return Some(i);
        }
        i = i + 1;
    }
    if i == v.len() && p.len() == 0 {
        assert(v@.subrange(i as int, i as int) =~= p@);
        return Some(i);
    }
    None
}

/// Whether `s` begins with `p`.
pub fn starts_with(s: &str, p: &str) -> (r: bool)
    ensures
        r == starts(s@, p@),
{
    let v = chars_of(s);
    let q = chars_of(p);
    let b = vec_occurs_at(&v, &q, 0);
    proof {
        if p@.len() <= s@.len() {
            assert(s@.subrange(0, p@.len() as int) =~= s@.take(p@.len() as int));
        }
    }
    b
}

/// What follows `p` in `s`, where `s` begins with `p`.
pub fn strip_prefix(s: &str, p: &str) -> (r: Option<String>)
    ensures
        match r {
            Some(t) => starts(s@, p@) && t@ == s@.skip(p@.len() as int),
            None => !starts(s@, p@),
        },
{
    if starts_with(s, p) {
        let v = chars_of(s);
        let q = chars_of(p);
        let t = string_of_range(&v, q.len(), v.len());
        assert(t@ =~= s@.skip(p@.len() as int));
        Some(t)
    } else {
        None
    }
}

/// Whether `s` ends with `p`.
pub open spec fn ends(s: Seq<char>, p: Seq<char>) -> bool {
    p.len() <= s.len() && s.skip(s.len() - p.len()) == p
}

/// `s` without the suffix `p`, where it ends with it.
pub fn strip_suffix(s: &str, p: &str) -> (r: Option<String>)
    ensures
        match r {
            Some(t) => ends(s@, p@) && t@ == s@.take(s@.len() - p@.len()),
            None => !ends(s@, p@),
        },
{
    let v = chars_of(s);
    let q = chars_of(p);
    if q.len() > v.len() {
        return None;
    }
    let n: usize = v.len() - q.len();
    let tail = string_of_range(&v, n, v.len());
    assert(tail@ =~= s@.skip(n as int));
    if str_eq(tail.as_str(), p) {
        let t = string_of_range(&v, 0, n);
        assert(t@ =~= s@.take(n as int));
        Some(t)
    } else {
        None
    }
}

/// Whether the character `c` occurs in `s`.
pub fn contains_char(s: &str, c: char) -> (r: bool)
    ensures
        r == s@.contains(c),
{
    let v = chars_of(s);
    let mut i: usize = 0;
    while i < v.len()
        invariant
            i <= v@.len(),
            v@ == s@,
            forall|j: int| 0 <= j < i ==> v@[j] != c,
        decreases v.len() - i,
    {
        if v[i] == c {
            assert(s@[i as int] == c);
            return true;
        }
        i = i + 1;
    }
    false
}

/// At most the first `n` characters of `s`.
pub open spec fn clipped(s: Seq<char>, n: int) -> Seq<char> {
    if s.len() <= n {
        s
    } else {
        s.take(n)
    }
}

/// At most the first `n` characters of `s`.
pub fn clip(s: &str, n: usize) -> (r: String)
    ensures
        r@ == clipped(s@, n as int),
{
    let v = chars_of(s);
    if v.len() <= n {
        s.to_owned()
    } else {
        let r = string_of_range(&v, 0, n);
        assert(r@ =~= s@.take(n as int));
        r
    }
}

// --------------------------------------------------------------------- casing

pub open spec fn lower(c: char) -> char {
    if 'A' <= c <= 'Z' {
        ((c as u8) + 32) as char
    } else {
        c
    }
}

pub open spec fn upper(c: char) -> char {
    if 'a' <= c <= 'z' {
        ((c as u8) - 32) as char
    } else {
        c
    }
}

/// `s` with the ASCII capitals made small.
pub open spec fn lowered(s: Seq<char>) -> Seq<char> {
    Seq::new(s.len(), |i: int| lower(s[i]))
}

/// `s` with the small ASCII letters made capitals.
pub open spec fn uppered(s: Seq<char>) -> Seq<char> {
    Seq::new(s.len(), |i: int| upper(s[i]))
}

/// The text that `str::to_lowercase` makes of a text.
pub uninterp spec fn small_letters(s: Seq<char>) -> Seq<char>;

/// `str::to_lowercase`: an ASCII text in small letters; of other texts it is left unsaid what
/// comes out, but that it depends on the text alone.
#[verifier::external_body]
pub(crate) fn to_small_letters(s: &str) -> (r: String)
    ensures
        r@ == small_letters(s@),
        (forall|i: int| 0 <= i < s@.len() ==> (#[trigger] s@[i]) <= '\u{7f}') ==> r@
            == lowered(s@),
{
    s.to_lowercase()
}

fn lower_char(c: char) -> (r: char)
    ensures
        r == lower(c),
{
    if 'A' <= c && c <= 'Z' {
        (c as u8 + 32) as char
    } else {
        c
    }
}

fn upper_char(c: char) -> (r: char)
    ensures
        r == upper(c),
{
    if 'a' <= c && c <= 'z' {
        (c as u8 - 32) as char
    } else {
        c
    }
}

/// `s` with the ASCII capitals made small.
pub fn to_lower(s: &str) -> (r: String)
    ensures
        r@ == lowered(s@),
{
    let v = chars_of(s);
    let mut r: String = String::new();
    let mut i: usize = 0;
    while i < v.len()
        invariant
            i <= v@.len(),
            r@ == lowered(v@).take(i as int),
        decreases v.len() - i,
    {
        assert(lowered(v@).take(i as int + 1) =~= lowered(v@).take(i as int).push(
            lower(v@[i as int]),
        ));
        push_char(&mut r, lower_char(v[i]));
        i = i + 1;
    }
    assert(lowered(v@).take(i as int) =~= lowered(v@));
    r
}

/// `s` with the small ASCII letters made capitals.
pub fn to_upper(s: &str) -> (r: String)
    ensures
        r@ == uppered(s@),
{
    let v = chars_of(s);
    let mut r: String = String::new();
    let mut i: usize = 0;
    while i < v.len()
        invariant
            i <= v@.len(),
            r@ == uppered(v@).take(i as int),
        decreases v.len() - i,
    {
        assert(uppered(v@).take(i as int + 1) =~= uppered(v@).take(i as int).push(
            upper(v@[i as int]),
        ));
        push_char(&mut r, upper_char(v[i]));
        i = i + 1;
    }
    assert(uppered(v@).take(i as int) =~= uppered(v@));
    r
}

// ------------------------------------------------------------------- ordering

/// Dictionary order by character.
pub open spec fn lex_le(a: Seq<char>, b: Seq<char>) -> bool
    decreases a.len(),
{
    if a.len() == 0 {
        true
    } else if b.len() == 0 {
        false
    } else {
        a[0] < b[0] || (a[0] == b[0] && lex_le(a.drop_first(), b.drop_first()))
    }
}

pub proof fn lemma_lex_total(a: Seq<char>, b: Seq<char>)
    ensures
        lex_le(a, b) || lex_le(b, a),
        lex_le(a, b) && lex_le(b, a) ==> a == b,
        lex_le(a, a),
    decreases a.len(),
{
    if a.len() > 0 && b.len() > 0 {
        lemma_lex_total(a.drop_first(), b.drop_first());
        if lex_le(a, b) && lex_le(b, a) {
            assert(a =~= seq![a[0]] + a.drop_first());
            assert(b =~= seq![b[0]] + b.drop_first());
        }
    }
    if a.len() > 0 {
        lemma_lex_total(a.drop_first(), a.drop_first());
    }
    if a.len() == 0 && b.len() == 0 {
        assert(a =~= b);
    }
}

pub proof fn lemma_lex_trans(a: Seq<char>, b: Seq<char>, c: Seq<char>)
    requires
        lex_le(a, b),
        lex_le(b, c),
    ensures
        lex_le(a, c),
    decreases a.len(),
{
    if a.len() > 0 {
        if a[0] == b[0] && b[0] == c[0] {
            lemma_lex_trans(a.drop_first(), b.drop_first(), c.drop_first());
        }
    }
}

/// Dictionary order by character.
pub fn str_le(a: &str, b: &str) -> (r: bool)
    ensures
        r == lex_le(a@, b@),
{
    let x = chars_of(a);
    let y = chars_of(b);
    let mut i: usize = 0;
    assert(x@.skip(0) =~= x@);
    assert(y@.skip(0) =~= y@);
    while i < x.len() && i < y.len()
        invariant
            i <= x@.len(),
            i <= y@.len(),
            x@ == a@,
            y@ == b@,
            lex_le(x@, y@) == lex_le(x@.skip(i as int), y@.skip(i as int)),
        decreases x.len() - i,
    {
        if x[i] < y[i] {
            return true;
        }
        if y[i] < x[i] {
            return false;
        }
        proof {
            assert(x@.skip(i as int).drop_first() =~= x@.skip(i as int + 1));
            assert(y@.skip(i as int).drop_first() =~= y@.skip(i as int + 1));
        }
        i = i + 1;
    }
    i == x.len()
}

// ------------------------------------------------------------ decimal numbers

/// The digit character of `d`.
pub open spec fn digit(d: int) -> char {
    (('0' as u8) + d) as u8 as char
}

/// Whether `c` is a decimal digit.
pub open spec fn is_digit(c: char) -> bool {
    '0' <= c <= '9'
}

/// The decimal digits of `n`.
pub open spec fn dec_nat(n: nat) -> Seq<char>
    decreases n,
{
    if n < 10 {
        seq![digit(n as int)]
    } else {
        dec_nat(n / 10).push(digit((n % 10) as int))
    }
}

/// `n` in decimal, with a minus sign in front where it is negative.
pub open spec fn dec(n: int) -> Seq<char> {
    if n < 0 {
        seq!['-'] + dec_nat((-n) as nat)
    } else {
        dec_nat(n as nat)
    }
}

/// `n` in decimal with at least `w` digits, filled up with zeros at the front.
pub open spec fn padded(n: nat, w: nat) -> Seq<char> {
    let d = dec_nat(n);
    if d.len() >= w {
        d
    } else {
        Seq::new((w - d.len()) as nat, |i: int| '0') + d
    }
}

/// The digits of `n`.
pub fn dec_u128(n: u128) -> (r: String)
    ensures
        r@ == dec_nat(n as nat),
    decreases n,
{
    if n < 10 {
        let mut s: String = String::new();
        push_char(&mut s, (48u8 + n as u8) as char);
        assert(s@ =~= dec_nat(n as nat));
        s
    } else {
        let mut s = dec_u128(n / 10);
        push_char(&mut s, (48u8 + (n % 10) as u8) as char);
        s
    }
}

/// The digits of `n`.
pub fn dec_u64(n: u64) -> (r: String)
    ensures
        r@ == dec_nat(n as nat),
{
    dec_u128(n as u128)
}

/// `n` in decimal.
pub fn dec_i64(n: i64) -> (r: String)
    ensures
        r@ == dec(n as int),
{
    if n < 0 {
        let m: u64 = (-(n as i128)) as u64;
        cat2_char('-', &dec_u64(m))
    } else {
        dec_u64(n as u64)
    }
}

/// `c` followed by `s`.
pub fn cat2_char(c: char, s: &str) -> (r: String)
    ensures
        r@ == seq![c] + s@,
{
    let mut r: String = String::new();
    push_char(&mut r, c);
    r.append(s);
    assert(r@ =~= seq![c] + s@);
    r
}

/// Whether `s` is one or more decimal digits.
pub open spec fn all_digits(s: Seq<char>) -> bool {
    s.len() > 0 && forall|i: int| 0 <= i < s.len() ==> is_digit(#[trigger] s[i])
}

/// The number that the digits of `s` write.
pub open spec fn digits_value(s: Seq<char>) -> int
    decreases s.len(),
{
    if s.len() == 0 {
        0
    } else {
        10 * digits_value(s.drop_last()) + (s.last() as int - '0' as int)
    }
}

/// The integer that `s` writes in decimal: digits with at most one sign in front.
pub open spec fn int_of(s: Seq<char>) -> Option<int> {
    if s.len() > 0 && (s[0] == '-' || s[0] == '+') {
        if all_digits(s.drop_first()) {
            Some(
                if s[0] == '-' {
                    -digits_value(s.drop_first())
                } else {
                    digits_value(s.drop_first())
                },
            )
        } else {
            None
        }
    } else if all_digits(s) {
        Some(digits_value(s))
    } else {
        None
    }
}

/// The integer that `s` writes, where it lies between `lo` and `hi`.
pub open spec fn int_within(s: Seq<char>, lo: int, hi: int) -> Option<int> {
    match int_of(s) {
        Some(n) if lo <= n <= hi => Some(n),
        _ => None,
    }
}

proof fn lemma_digits_value_nonneg(s: Seq<char>)
    requires
        forall|i: int| 0 <= i < s.len() ==> is_digit(#[trigger] s[i]),
    ensures
        digits_value(s) >= 0,
    decreases s.len(),
{
    if s.len() > 0 {
        let t = s.drop_last();
        assert forall|i: int| 0 <= i < t.len() implies is_digit(#[trigger] t[i]) by {
            assert(t[i] == s[i]);
        }
        lemma_digits_value_nonneg(t);
        assert(is_digit(s[s.len() - 1]));
    }
}

proof fn lemma_digits_value_grows(s: Seq<char>, n: int)
    requires
        0 <= n <= s.len(),
        forall|i: int| 0 <= i < s.len() ==> is_digit(#[trigger] s[i]),
    ensures
        0 <= digits_value(s.take(n)) <= digits_value(s),
    decreases s.len() - n,
{
    let t = s.take(n);
    assert forall|i: int| 0 <= i < t.len() implies is_digit(#[trigger] t[i]) by {
        assert(t[i] == s[i]);
    }
    lemma_digits_value_nonneg(t);
    if n < s.len() {
        lemma_digits_value_grows(s, n + 1);
        assert(s.take(n + 1).drop_last() =~= t);
        assert(is_digit(s[n]));
    } else {
        assert(t =~= s);
    }
}

/// The value of the digits `v[from..]`, or nothing where a character is no digit,
/// where there is none at all, or where the value is over `max`.
fn digits_upto(v: &Vec<char>, from: usize, max: u128) -> (r: Option<u128>)
    requires
        from <= v@.len(),
        max <= 0x1_0000_0000_0000_0000,
    ensures
        match r {
            Some(n) => all_digits(v@.skip(from as int)) && n == digits_value(v@.skip(from as int))
                && n <= max,
            None => !all_digits(v@.skip(from as int)) || digits_value(v@.skip(from as int)) > max,
        },
{
    let ghost s = v@.skip(from as int);
    if from == v.len() {
        return None;
    }
    let mut i: usize = from;
    let mut acc: u128 = 0;
    let mut over: bool = false;
    assert(s.take(0) =~= Seq::<char>::empty());
    while i < v.len()
        invariant
            from <= i <= v@.len(),
            max <= 0x1_0000_0000_0000_0000,
            s == v@.skip(from as int),
            forall|j: int| 0 <= j < i - from ==> is_digit(#[trigger] s[j]),
            !over ==> acc == digits_value(s.take(i - from)) && acc <= max,
            over ==> digits_value(s.take(i - from)) > max,
        decreases v.len() - i,
    {
        let c = v[i];
        let ghost k = i - from;
        assert(s[k] == c);
        if !('0' <= c && c <= '9') {
            return None;
        }
        proof {
            assert(s.take(k + 1).drop_last() =~= s.take(k));
            assert(s.take(k + 1).last() == c);
            assert forall|j: int| 0 <= j < s.take(k).len() implies is_digit(
                #[trigger] s.take(k)[j],
            ) by {
                assert(s.take(k)[j] == s[j]);
            }
            lemma_digits_value_nonneg(s.take(k));
        }
        if !over {
            let d: u128 = (c as u8 - 48u8) as u128;
            let next: u128 = acc * 10 + d;
            if next > max {
                over = true;
            } else {
                acc = next;
            }
        }
        i = i + 1;
    }
    assert(s.take(i - from) =~= s);
    if over {
        None
    } else {
        Some(acc)
    }
}

/// The integer that `s` writes in decimal, where it lies between `lo` and `hi`.
pub fn parse_within(s: &str, lo: i64, hi: i64) -> (r: Option<i64>)
    ensures
        match r {
            Some(n) => int_within(s@, lo as int, hi as int) == Some(n as int),
            None => int_within(s@, lo as int, hi as int) is None,
        },
{
    let v = chars_of(s);
    if v.len() > 0 && (v[0] == '-' || v[0] == '+') {
        assert(v@.skip(1) =~= v@.drop_first());
        match digits_upto(&v, 1, 0x8000_0000_0000_0000) {
            None => None,
            Some(m) => {
                let n: i128 = if v[0] == '-' {
                    -(m as i128)
                } else {
                    m as i128
                };
                if lo as i128 <= n && n <= hi as i128 {
                    Some(n as i64)
                } else {
                    None
                }
            },
        }
    } else {
        assert(v@.skip(0) =~= v@);
        match digits_upto(&v, 0, 0x8000_0000_0000_0000) {
            None => None,
            Some(m) => {
                let n: i128 = m as i128;
                if lo as i128 <= n && n <= hi as i128 {
                    Some(n as i64)
                } else {
                    None
                }
            },
        }
    }
}

/// The digits of a number are digits, and their value is that number.
pub proof fn lemma_dec_nat(n: nat)
    ensures
        all_digits(dec_nat(n)),
        digits_value(dec_nat(n)) == n,
    decreases n,
{
    let s = dec_nat(n);
    if n < 10 {
        assert(s.drop_last() =~= Seq::empty());
        assert(digits_value(s.drop_last()) == 0);
        assert(s.last() == digit(n as int));
        assert(digit(n as int) as int - '0' as int == n);
    } else {
        let t = dec_nat(n / 10);
        lemma_dec_nat(n / 10);
        assert(s.drop_last() =~= t);
        assert(s.last() == digit((n % 10) as int));
        assert(digit((n % 10) as int) as int - '0' as int == n % 10);
        assert forall|i: int| 0 <= i < s.len() implies is_digit(#[trigger] s[i]) by {
            if i < t.len() {
                assert(s[i] == t[i]);
            }
        }
    }
}

/// A number that is written in decimal is read back, and from no other number.
pub proof fn lemma_dec_reads_back(n: int, lo: int, hi: int)
    ensures
        int_of(dec(n)) == Some(n),
        lo <= n <= hi ==> int_within(dec(n), lo, hi) == Some(n),
        !(lo <= n <= hi) ==> int_within(dec(n), lo, hi) is None,
{
    if n < 0 {
        lemma_dec_nat((-n) as nat);
        let s = dec(n);
        assert(s.drop_first() =~= dec_nat((-n) as nat));
    } else {
        lemma_dec_nat(n as nat);
        let s = dec(n);
        assert(is_digit(s[0]));
    }
}

/// A number that is filled up with zeros is as long as asked for, or as long as it takes, and
/// reads as the same number.
pub proof fn lemma_padded(n: nat, w: nat)
    ensures
        padded(n, w).len() >= w,
        padded(n, w).len() == w || padded(n, w) == dec_nat(n),
        all_digits(padded(n, w)),
        digits_value(padded(n, w)) == n,
{
    lemma_dec_nat(n);
    let d = dec_nat(n);
    if d.len() < w {
        let z = Seq::new((w - d.len()) as nat, |i: int| '0');
        lemma_leading_zeros(z, d);
    }
}

proof fn lemma_leading_zeros(z: Seq<char>, d: Seq<char>)
    requires
        forall|i: int| 0 <= i < z.len() ==> #[trigger] z[i] == '0',
    ensures
        digits_value(z + d) == digits_value(d),
    decreases z.len() + d.len(),
{
    let s = z + d;
    if d.len() > 0 {
        lemma_leading_zeros(z, d.drop_last());
        assert(s.drop_last() =~= z + d.drop_last());
    } else if z.len() > 0 {
        let y = z.drop_last();
        assert forall|i: int| 0 <= i < y.len() implies #[trigger] y[i] == '0' by {
            assert(y[i] == z[i]);
        }
        lemma_leading_zeros(y, d);
        assert(s.drop_last() =~= y + d);
        assert(z[z.len() - 1] == '0');
        assert(s.last() == '0');
    } else {
        assert(s =~= d);
    }
}

/// A small letter of the alphabet is made of a capital and the other way round; all other
/// characters stay.
pub proof fn lemma_letters(c: char)
    ensures
        'A' <= c <= 'Z' ==> 'a' <= lower(c) <= 'z' && upper(lower(c)) == c && lower(c) as int - 'a'
            as int == c as int - 'A' as int,
        'a' <= c <= 'z' ==> 'A' <= upper(c) <= 'Z' && lower(upper(c)) == c && upper(c) as int - 'A'
            as int == c as int - 'a' as int,
        !('A' <= c <= 'Z') ==> lower(c) == c,
        !('a' <= c <= 'z') ==> upper(c) == c,
{
}

/// Texts are ordered by their characters: nothing comes before everything else, a first
/// character that is smaller decides, and what two texts begin with alike does not.
pub proof fn lemma_lex_by_characters(p: Seq<char>, a: Seq<char>, b: Seq<char>)
    ensures
        lex_le(Seq::empty(), a),
        a.len() > 0 ==> !lex_le(a, Seq::empty()),
        a.len() > 0 && b.len() > 0 && a[0] < b[0] ==> lex_le(a, b) && !lex_le(b, a),
        lex_le(p + a, p + b) == lex_le(a, b),
    decreases p.len(),
{
    if p.len() == 0 {
        assert(p + a =~= a);
        assert(p + b =~= b);
    } else {
        let q = p.drop_first();
        lemma_lex_by_characters(q, a, b);
        assert((p + a).drop_first() =~= q + a);
        assert((p + b).drop_first() =~= q + b);
        assert((p + a)[0] == (p + b)[0]);
    }
}

/// A search from the end finds the last occurrence up to where it begins, and -1 means there
/// is none.
pub proof fn lemma_rfind_from(s: Seq<char>, p: Seq<char>, upto: int)
    ensures
        rfind_from(s, p, upto) >= 0 ==> rfind_from(s, p, upto) <= upto && occurs_at(
            s,
            p,
            rfind_from(s, p, upto),
        ),
        forall|j: int|
            rfind_from(s, p, upto) < j <= upto ==> !#[trigger] occurs_at(s, p, j),
        rfind_from(s, p, upto) >= -1,
    decreases upto + 1,
{
    if upto >= 0 && !occurs_at(s, p, upto) {
        lemma_rfind_from(s, p, upto - 1);
    }
}

/// A number may be written with a plus sign; a sign alone, two signs and nothing at all are no
/// number.
pub proof fn lemma_signs(n: nat)
    ensures
        int_of(seq!['+'] + dec_nat(n)) == Some(n as int),
        int_of(seq!['-'] + dec_nat(n)) == Some(-(n as int)),
        int_of(seq!['+']) is None,
        int_of(seq!['-']) is None,
        int_of(Seq::empty()) is None,
        int_of(seq!['-', '-'] + dec_nat(n)) is None,
{
    lemma_dec_nat(n);
    let p = seq!['+'] + dec_nat(n);
    let m = seq!['-'] + dec_nat(n);
    let d = seq!['-', '-'] + dec_nat(n);
    assert(p.drop_first() =~= dec_nat(n));
    assert(m.drop_first() =~= dec_nat(n));
    assert(!is_digit(d.drop_first()[0]));
    assert(!all_digits(d.drop_first()));
    assert(seq!['+'].drop_first() =~= Seq::<char>::empty());
    assert(seq!['-'].drop_first() =~= Seq::<char>::empty());
}

} // verus!
