//! Device aliases: names that the user gave to devices.
//!
//! Aliases are stored as one JSON object from device key to alias. A device is named
//! by the alias of its own key, and failing that by the alias that all aliased devices
//! of its model and interface agree on.
use std::collections::BTreeMap;
use vstd::prelude::*;
use vstd::string::*;
use vstd::utf8::*;

use crate::hardware;
use crate::hardware::{hardware_identity_key, model_key};
use crate::text;
use crate::text::{str_eq, trim};
use crate::textmap;
use crate::textmap::TextMap;

verus! {

/// The largest number of characters of an alias.
pub const MAX_ALIAS_CHARS: usize = 24;

/// `alias` without white space around it, cut to the largest length.
pub open spec fn clamped(alias: Seq<char>) -> Seq<char> {
    text::clipped(text::trimmed(alias), MAX_ALIAS_CHARS as int)
}

/// `alias` without white space around it, cut to [`MAX_ALIAS_CHARS`] characters.
pub fn clamp_alias(alias: &str) -> (r: String)
    ensures
        r@ == clamped(alias@),
        r@.len() <= MAX_ALIAS_CHARS,
{
    text::clip(trim(alias).as_str(), MAX_ALIAS_CHARS)
}

// ------------------------------------------------------------------ alias table

/// Whether entry `i` is an alias for a device of model `m`.
pub open spec fn carries(p: Seq<(Seq<char>, Seq<char>)>, m: Seq<char>, i: int) -> bool {
    0 <= i < p.len() && hardware::model_of(p[i].0) == Some(m)
}

/// Whether some alias is for a device of model `m`.
pub open spec fn is_carried(p: Seq<(Seq<char>, Seq<char>)>, m: Seq<char>) -> bool {
    exists|i: int| carries(p, m, i)
}

/// The alias that all aliased devices of model `m` agree on.
pub open spec fn agreed(p: Seq<(Seq<char>, Seq<char>)>, m: Seq<char>) -> Option<Seq<char>> {
    if is_carried(p, m) && (forall|i: int, j: int|
        #![trigger carries(p, m, i), carries(p, m, j)]
        carries(p, m, i) && carries(p, m, j) ==> p[i].1 == p[j].1) {
        Some(p[choose|i: int| carries(p, m, i)].1)
    } else {
        None
    }
}

/// The alias of a device among the aliases `p`.
pub open spec fn resolved(p: Seq<(Seq<char>, Seq<char>)>, key: Seq<char>) -> Option<Seq<char>> {
    let m = textmap::map_of(p);
    if m.contains_key(key) {
        Some(m[key])
    } else {
        match hardware::model_of(key) {
            Some(model) => agreed(p, model),
            None => None,
        }
    }
}

/// Adding one alias for model `m` keeps the agreement, founds it, or ends it.
proof fn lemma_agreed_push(p: Seq<(Seq<char>, Seq<char>)>, e: (Seq<char>, Seq<char>), m: Seq<char>)
    ensures
        hardware::model_of(e.0) != Some(m) ==> agreed(p.push(e), m) == agreed(p, m) && is_carried(
            p.push(e),
            m,
        ) == is_carried(p, m),
        hardware::model_of(e.0) == Some(m) ==> is_carried(p.push(e), m) && agreed(p.push(e), m)
            == (if !is_carried(p, m) {
            Some(e.1)
        } else {
            match agreed(p, m) {
                Some(a) if a == e.1 => Some(a),
                _ => None,
            }
        }),
{
    let q = p.push(e);
    assert forall|i: int| 0 <= i < p.len() implies carries(q, m, i) == carries(p, m, i) by {
        assert(q[i] == p[i]);
    }
    if hardware::model_of(e.0) != Some(m) {
        assert(!carries(q, m, p.len() as int));
        if is_carried(p, m) {
            let i = choose|i: int| carries(p, m, i);
            assert(carries(q, m, i));
            let j = choose|j: int| carries(q, m, j);
            assert(carries(p, m, j));
            if agreed(p, m) is Some {
                assert forall|a: int, b: int|
                    #![trigger carries(q, m, a), carries(q, m, b)]
                    carries(q, m, a) && carries(q, m, b) implies q[a].1 == q[b].1 by {
                    assert(carries(p, m, a) && carries(p, m, b));
                }
                assert(p[i].1 == p[j].1);
            }
            if agreed(q, m) is Some {
                assert forall|a: int, b: int|
                    #![trigger carries(p, m, a), carries(p, m, b)]
                    carries(p, m, a) && carries(p, m, b) implies p[a].1 == p[b].1 by {
                    assert(carries(q, m, a) && carries(q, m, b));
                }
            }
        } else if is_carried(q, m) {
            let j = choose|j: int| carries(q, m, j);
            assert(carries(p, m, j));
        }
    } else {
        assert(carries(q, m, p.len() as int));
        let j = choose|j: int| carries(q, m, j);
        if !is_carried(p, m) {
            assert forall|a: int| carries(q, m, a) implies a == p.len() by {
                if a < p.len() {
                    assert(carries(p, m, a));
                }
            }
        } else {
            let i = choose|i: int| carries(p, m, i);
            assert(carries(q, m, i));
            match agreed(p, m) {
                Some(a) => {
                    if a == e.1 {
                        assert forall|x: int, y: int|
                            #![trigger carries(q, m, x), carries(q, m, y)]
                            carries(q, m, x) && carries(q, m, y) implies q[x].1 == q[y].1 by {
                            if x < p.len() {
                                assert(carries(p, m, x));
                                assert(p[x].1 == p[i].1);
                            }
                            if y < p.len() {
                                assert(carries(p, m, y));
                                assert(p[y].1 == p[i].1);
                            }
                        }
                        assert(q[j].1 == q[p.len() as int].1);
                    } else {
                        assert(q[i].1 != q[p.len() as int].1);
                    }
                },
                None => {
                    let (x, y) = choose|x: int, y: int|
                        #![trigger carries(p, m, x), carries(p, m, y)]
                        carries(p, m, x) && carries(p, m, y) && p[x].1 != p[y].1;
                    assert(carries(q, m, x) && carries(q, m, y));
                    assert(q[x].1 != q[y].1);
                },
            }
        }
    }
}

/// The aliases that are not blank.
pub open spec fn named(p: Seq<(Seq<char>, Seq<char>)>) -> Seq<(Seq<char>, Seq<char>)>
    decreases p.len(),
{
    if p.len() == 0 {
        p
    } else if text::is_blank(p.last().1) {
        named(p.drop_last())
    } else {
        named(p.drop_last()).push(p.last())
    }
}

/// Leaving out blank aliases keeps the order, and adds nothing.
proof fn lemma_named(p: Seq<(Seq<char>, Seq<char>)>)
    requires
        textmap::ascending(p),
    ensures
        textmap::ascending(named(p)),
        forall|x: int| 0 <= x < named(p).len() ==> p.contains(#[trigger] named(p)[x]),
    decreases p.len(),
{
    if p.len() > 0 {
        let t = p.drop_last();
        textmap::lemma_drop_last(p);
        lemma_named(t);
        let a = named(p);
        assert forall|x: int| 0 <= x < a.len() implies p.contains(#[trigger] a[x]) by {
            if x < named(t).len() {
                assert(a[x] == named(t)[x]);
                let z = choose|z: int| 0 <= z < t.len() && t[z] == named(t)[x];
                assert(p[z] == a[x]);
            } else {
                assert(p[p.len() - 1] == a[x]);
            }
        }
        assert forall|x: int, y: int| 0 <= x < y < a.len() implies textmap::before(
            (#[trigger] a[x]).0,
            (#[trigger] a[y]).0,
        ) by {
            assert(a[x] == named(t)[x]);
            if y < named(t).len() {
                assert(a[y] == named(t)[y]);
            } else {
                let z = choose|z: int| 0 <= z < t.len() && t[z] == named(t)[x];
                assert(p[z] == t[z]);
                assert(textmap::before(p[z].0, p[p.len() - 1].0));
            }
        }
    }
}

/// An alias that is not blank is kept.
proof fn lemma_named_keeps(p: Seq<(Seq<char>, Seq<char>)>, i: int)
    requires
        0 <= i < p.len(),
        !text::is_blank(p[i].1),
    ensures
        named(p).contains(p[i]),
    decreases p.len(),
{
    let t = p.drop_last();
    if i == p.len() - 1 {
        assert(named(p)[named(p).len() - 1] == p[i]);
    } else {
        assert(t[i] == p[i]);
        lemma_named_keeps(t, i);
        let z = choose|z: int| 0 <= z < named(t).len() && named(t)[z] == p[i];
        assert(named(p)[z] == p[i]);
    }
}

/// The alias table: aliases by device key, and by model where a model is aliased.
pub struct AliasTable {
    exact: TextMap,
    /// Model to the alias that is agreed on; `None` where there are several.
    model: Vec<(String, Option<String>)>,
}

/// The texts of a model index.
pub open spec fn model_view(v: Seq<(String, Option<String>)>) -> Seq<
    (Seq<char>, Option<Seq<char>>),
> {
    Seq::new(
        v.len(),
        |i: int|
            (
                v[i].0@,
                match v[i].1 {
                    Some(a) => Some(a@),
                    None => None,
                },
            ),
    )
}

/// The index holds exactly the models that are carried, each with what is agreed on.
pub open spec fn indexes(
    v: Seq<(Seq<char>, Option<Seq<char>>)>,
    p: Seq<(Seq<char>, Seq<char>)>,
) -> bool {
    &&& forall|i: int|
        0 <= i < v.len() ==> is_carried(p, (#[trigger] v[i]).0) && v[i].1 == agreed(p, v[i].0)
    &&& forall|m: Seq<char>|
        is_carried(p, m) ==> exists|i: int| 0 <= i < v.len() && (#[trigger] v[i]).0 == m
    &&& forall|i: int, j: int|
        0 <= i < j < v.len() ==> (#[trigger] v[i]).0 != (#[trigger] v[j]).0
}

impl AliasTable {
    /// The aliases of the table, in the order of their device keys.
    pub closed spec fn aliases(&self) -> Seq<(Seq<char>, Seq<char>)> {
        textmap::pairs(self.exact.entries@)
    }

    /// Keys are in order, and the model index fits the aliases.
    pub closed spec fn wf(&self) -> bool {
        self.exact.wf() && indexes(model_view(self.model@), self.aliases())
    }

    fn find_model(&self, m: &str) -> (r: usize)
        ensures
            r <= self.model@.len(),
            r < self.model@.len() ==> self.model@[r as int].0@ == m@,
            r == self.model@.len() ==> forall|i: int|
                0 <= i < self.model@.len() ==> (#[trigger] self.model@[i]).0@ != m@,
    {
        let mut i: usize = 0;
        while i < self.model.len()
            invariant
                i <= self.model@.len(),
                forall|j: int| 0 <= j < i ==> (#[trigger] self.model@[j]).0@ != m@,
            decreases self.model.len() - i,
        {
            if str_eq(self.model[i].0.as_str(), m) {
                return i;
            }
            i = i + 1;
        }
        i
    }

    /// Adds one alias whose key comes after all others.
    fn push(&mut self, key: &str, alias: &str)
        requires
            old(self).wf(),
            textmap::ascending(old(self).aliases().push((key@, alias@))),
        ensures
            final(self).wf(),
            final(self).aliases() == old(self).aliases().push((key@, alias@)),
    {
        let ghost p = self.aliases();
        let ghost v = model_view(self.model@);
        let ghost e = (key@, alias@);
        let ghost q = p.push(e);
        self.exact.entries.push((key.to_owned(), alias.to_owned()));
        assert(textmap::pairs(self.exact.entries@) =~= q);
        proof {
            assert forall|m: Seq<char>| true implies #[trigger] is_carried(q, m) == (is_carried(p, m)
                || hardware::model_of(e.0) == Some(m)) by {
                lemma_agreed_push(p, e, m);
            }
        }
        match model_key(key) {
            None => {
                proof {
                    assert forall|i: int| 0 <= i < v.len() implies is_carried(q, (#[trigger] v[i]).0)
                        && v[i].1 == agreed(q, v[i].0) by {
                        lemma_agreed_push(p, e, v[i].0);
                    }
                    assert forall|m: Seq<char>| is_carried(q, m) implies exists|i: int|
                        0 <= i < v.len() && (#[trigger] v[i]).0 == m by {
                        assert(is_carried(p, m));
                    }
                }
            },
            Some(mk) => {
                let ghost m = mk@;
                let i = self.find_model(mk.as_str());
                if i == self.model.len() {
                    proof {
                        assert forall|j: int| 0 <= j < v.len() implies (#[trigger] v[j]).0 != m by {
                            assert(self.model@[j].0@ != m);
                        }
                        assert(!is_carried(p, m));
                    }
                    self.model.push((mk, Some(alias.to_owned())));
                    proof {
                        let w = model_view(self.model@);
                        assert(w =~= v.push((m, Some(alias@))));
                        assert forall|j: int| 0 <= j < w.len() implies is_carried(
                            q,
                            (#[trigger] w[j]).0,
                        ) && w[j].1 == agreed(q, w[j].0) by {
                            lemma_agreed_push(p, e, w[j].0);
                            if j < v.len() {
                                assert(w[j] == v[j]);
                            }
                        }
                        assert forall|x: Seq<char>| is_carried(q, x) implies exists|j: int|
                            0 <= j < w.len() && (#[trigger] w[j]).0 == x by {
                            if x == m {
                                assert(w[v.len() as int].0 == x);
                            } else {
                                assert(is_carried(p, x));
                                let j = choose|j: int| 0 <= j < v.len() && (#[trigger] v[j]).0 == x;
                                assert(w[j].0 == x);
                            }
                        }
                        assert forall|a: int, b: int| 0 <= a < b < w.len() implies (
                        #[trigger] w[a]).0 != (#[trigger] w[b]).0 by {
                            assert(w[a] == v[a]);
                            if b < v.len() {
                                assert(w[b] == v[b]);
                            }
                        }
                    }
                } else {
                    proof {
                        assert(v[i as int].0 == m);
                        lemma_agreed_push(p, e, m);
                    }
                    let ends = match &self.model[i].1 {
                        Some(existing) => !str_eq(existing.as_str(), alias),
                        None => false,
                    };
                    if ends {
                        self.model[i] = (mk, None);
                    }
                    proof {
                        let w = model_view(self.model@);
                        assert(w.len() == v.len());
                        assert forall|j: int| 0 <= j < w.len() implies is_carried(
                            q,
                            (#[trigger] w[j]).0,
                        ) && w[j].1 == agreed(q, w[j].0) by {
                            lemma_agreed_push(p, e, v[j].0);
                            if j != i {
                                assert(w[j] == v[j]);
                                if j < i {
                                    assert(v[j].0 != v[i as int].0);
                                } else {
                                    assert(v[i as int].0 != v[j].0);
                                }
                            }
                        }
                        assert forall|x: Seq<char>| is_carried(q, x) implies exists|j: int|
                            0 <= j < w.len() && (#[trigger] w[j]).0 == x by {
                            if x == m {
                                assert(w[i as int].0 == x);
                            } else {
                                assert(is_carried(p, x));
                                let j = choose|j: int| 0 <= j < v.len() && (#[trigger] v[j]).0 == x;
                                assert(w[j].0 == x);
                            }
                        }
                        assert forall|a: int, b: int| 0 <= a < b < w.len() implies (
                        #[trigger] w[a]).0 != (#[trigger] w[b]).0 by {
                            assert(w[a].0 == v[a].0 && w[b].0 == v[b].0);
                        }
                    }
                }
            },
        }
    }

    /// The table of the aliases in `map` that are not blank.
    pub fn from_map(map: &TextMap) -> (r: Self)
        requires
            map.wf(),
        ensures
            r.wf(),
            r.aliases() == named(textmap::pairs(map.entries@)),
    {
        let ghost p = textmap::pairs(map.entries@);
        let mut r = AliasTable { exact: TextMap::new(), model: Vec::new() };
        proof {
            assert(r.aliases() =~= Seq::<(Seq<char>, Seq<char>)>::empty());
            assert forall|m: Seq<char>| !is_carried(r.aliases(), m) by {}
            assert(named(p.take(0)) =~= Seq::<(Seq<char>, Seq<char>)>::empty());
        }
        let mut i: usize = 0;
        while i < map.entries.len()
            invariant
                i <= map.entries@.len(),
                p == textmap::pairs(map.entries@),
                textmap::ascending(p),
                r.wf(),
                r.aliases() == named(p.take(i as int)),
            decreases map.entries.len() - i,
        {
            let ghost t = p.take(i as int);
            proof {
                let t1 = p.take(i as int + 1);
                assert(t1.drop_last() =~= t);
                assert(t1.last() == p[i as int]);
                assert forall|x: int, y: int| 0 <= x < y < t1.len() implies textmap::before(
                    (#[trigger] t1[x]).0,
                    (#[trigger] t1[y]).0,
                ) by {
                    assert(t1[x] == p[x] && t1[y] == p[y]);
                }
                lemma_named(t1);
            }
            if !text::blank(map.entries[i].1.as_str()) {
                r.push(map.entries[i].0.as_str(), map.entries[i].1.as_str());
            }
            i = i + 1;
        }
        assert(p.take(i as int) =~= p);
        r
    }

    /// Whether there is no alias.
    pub fn is_empty(&self) -> (r: bool)
        ensures
            r == (self.aliases().len() == 0),
    {
        self.exact.entries.len() == 0
    }

    /// The alias of a device: that of its own key, else the one agreed on for its model.
    pub fn resolve(&self, device_key: &str) -> (r: Option<&str>)
        requires
            self.wf(),
        ensures
            match r {
                Some(a) => resolved(self.aliases(), device_key@) == Some(a@),
                None => resolved(self.aliases(), device_key@) is None,
            },
    {
        let ghost p = self.aliases();
        let ghost v = model_view(self.model@);
        match self.exact.get(&device_key.to_owned()) {
            Some(a) => Some(a.as_str()),
            None => match model_key(device_key) {
                None => None,
                Some(m) => {
                    let i = self.find_model(m.as_str());
                    if i < self.model.len() {
                        assert(v[i as int].0 == m@);
                        match &self.model[i].1 {
                            Some(a) => Some(a.as_str()),
                            None => None,
                        }
                    } else {
                        proof {
                            assert forall|j: int| 0 <= j < v.len() implies (#[trigger] v[j]).0
                                != m@ by {
                                assert(self.model@[j].0@ != m@);
                            }
                            assert(!is_carried(p, m@));
                        }
                        None
                    }
                },
            },
        }
    }

    /// The alias of exactly this device key.
    pub fn exact_alias(&self, device_key: &str) -> (r: Option<&str>)
        requires
            self.wf(),
        ensures
            match r {
                Some(a) => textmap::map_of(self.aliases()).contains_key(device_key@)
                    && textmap::map_of(self.aliases())[device_key@] == a@,
                None => !textmap::map_of(self.aliases()).contains_key(device_key@),
            },
    {
        match self.exact.get(&device_key.to_owned()) {
            Some(a) => Some(a.as_str()),
            None => None,
        }
    }
}

// ------------------------------------------------------------------- alias file

/// The map that `serde_json::from_slice` reads in an alias file.
pub uninterp spec fn json_map(bytes: Seq<u8>) -> Option<Map<Seq<char>, Seq<char>>>;

/// What `serde_json::to_string_pretty` writes for a map.
pub uninterp spec fn json_text(map: Map<Seq<char>, Seq<char>>) -> Seq<char>;

/// `serde_json::from_slice` into a `BTreeMap<String, String>`, whose entries come out in
/// ascending order of their keys; nothing where the bytes are no such map.
#[verifier::external_body]
pub(crate) fn json_read(bytes: &Vec<u8>) -> (r: Option<Vec<(String, String)>>)
    ensures
        match r {
            Some(v) => textmap::ascending(textmap::pairs(v@)) && json_map(bytes@) == Some(
                textmap::map_of(textmap::pairs(v@)),
            ),
            None => json_map(bytes@) is None,
        },
{
    let parsed = serde_json::from_slice::<BTreeMap<String, String>>(bytes);
    parsed.ok().map(|m| m.into_iter().collect())
}

/// `serde_json::to_string_pretty` of a `BTreeMap` of strings, which does not fail; the
/// bytes of what it writes are read back as the same map.
#[verifier::external_body]
pub(crate) fn json_write(map: &TextMap) -> (r: String)
    requires
        map.wf(),
    ensures
        r@ == json_text(map@),
        json_map(encode_utf8(r@)) == Some(map@),
{
    let m: BTreeMap<&str, &str> = map.entries.iter().map(|e| (e.0.as_str(), e.1.as_str())).collect();
    serde_json::to_string_pretty(&m).unwrap()
}

/// What reading the alias file from disk came to.
pub enum AliasFile {
    /// There is no such file.
    Missing,
    /// The file is there but could not be read just now.
    Failed,
    /// The bytes of the file.
    Bytes(Vec<u8>),
}

/// What an alias file holds.
pub enum AliasRead {
    /// The aliases; a missing file holds none.
    Good(TextMap),
    /// The content is no alias map: it can be replaced once it was put aside.
    Broken,
    /// The content may be fine but cannot be read: it must not be replaced.
    Unreadable,
}

impl AliasRead {
    /// The keys of a readable map are in order.
    pub open spec fn wf(&self) -> bool {
        self matches AliasRead::Good(m) ==> m.wf()
    }

    /// The aliases to start from; nothing where they must not be replaced.
    pub open spec fn start(&self) -> Option<Map<Seq<char>, Seq<char>>> {
        match self {
            AliasRead::Good(m) => Some(m@),
            AliasRead::Broken => Some(Map::empty()),
            AliasRead::Unreadable => None,
        }
    }
}

/// The aliases in a file as it was read from disk.
pub fn try_read_map(file: &AliasFile) -> (r: AliasRead)
    ensures
        r.wf(),
        match file {
            AliasFile::Missing => r matches AliasRead::Good(m) && m@ == Map::<
                Seq<char>,
                Seq<char>,
            >::empty(),
            AliasFile::Failed => r is Unreadable,
            AliasFile::Bytes(b) => match json_map(b@) {
                Some(x) => r matches AliasRead::Good(m) && m@ == x,
                None => r is Broken,
            },
        },
{
    match file {
        AliasFile::Missing => AliasRead::Good(TextMap::new()),
        AliasFile::Failed => AliasRead::Unreadable,
        AliasFile::Bytes(b) => match json_read(b) {
            Some(entries) => AliasRead::Good(TextMap { entries }),
            None => AliasRead::Broken,
        },
    }
}

/// The text to store for an alias map; reading it gives the map back.
pub fn write_map(map: &TextMap) -> (r: String)
    requires
        map.wf(),
    ensures
        r@ == json_text(map@),
        json_map(encode_utf8(r@)) == Some(map@),
{
    json_write(map)
}

/// The reason given where the alias file must not be replaced.
pub fn alias_unreadable(path: &str) -> (r: String)
    ensures
        r@
            == "设备别名文件此刻读不出来（常被同步盘或杀软短暂占用），已取消本次改动：继续写会把其余别名一起抹掉。稍等几秒再试一次即可；文件位置 "@
            + path@,
{
    text::cat2(
        "设备别名文件此刻读不出来（常被同步盘或杀软短暂占用），已取消本次改动：继续写会把其余别名一起抹掉。稍等几秒再试一次即可；文件位置 ",
        path,
    )
}

/// Why an alias was not changed: the file cannot be read just now.
#[derive(Clone, Copy, PartialEq, Eq, Structural, Debug)]
pub struct AliasUnreadable;

/// The aliases after giving `key` the alias `alias`; a blank alias takes it away.
pub open spec fn after_set(
    m: Map<Seq<char>, Seq<char>>,
    key: Seq<char>,
    alias: Seq<char>,
) -> Map<Seq<char>, Seq<char>> {
    if text::is_blank(alias) {
        m.remove(key)
    } else {
        m.insert(key, clamped(alias))
    }
}

fn start_of(read: AliasRead) -> (r: Result<TextMap, AliasUnreadable>)
    requires
        read.wf(),
    ensures
        match r {
            Ok(m) => m.wf() && read.start() == Some(m@),
            Err(_) => read.start() is None,
        },
{
    match read {
        AliasRead::Good(m) => Ok(m),
        AliasRead::Broken => Ok(TextMap::new()),
        AliasRead::Unreadable => Err(AliasUnreadable),
    }
}

/// The aliases to store after giving a device an alias, and their number. A blank alias
/// takes the alias away. Nothing is to be stored where the file could not be read.
pub fn set(read: AliasRead, device_key: &str, alias: &str) -> (r: Result<
    (TextMap, usize),
    AliasUnreadable,
>)
    requires
        read.wf(),
    ensures
        match r {
            Ok(p) => {
                &&& p.0.wf()
                &&& read.start() is Some
                &&& p.0@ == after_set(read.start()->0, device_key@, alias@)
                &&& p.1 == p.0.entries@.len()
            },
            Err(_) => read.start() is None,
        },
{
    match start_of(read) {
        Err(e) => Err(e),
        Ok(mut map) => {
            let t = trim(alias);
            if text::blank(alias) {
                map.remove(&device_key.to_owned());
            } else {
                proof {
                    text::lemma_trimmed_idempotent(alias@);
                }
                map.insert(device_key.to_owned(), clamp_alias(t.as_str()));
            }
            let n = map.len();
            Ok((map, n))
        },
    }
}

/// The aliases after taking away that of a device, and whether it had one; only then
/// there is something to store.
pub fn clear(read: AliasRead, device_key: &str) -> (r: Result<(TextMap, bool), AliasUnreadable>)
    requires
        read.wf(),
    ensures
        match r {
            Ok(p) => {
                &&& p.0.wf()
                &&& read.start() is Some
                &&& p.0@ == read.start()->0.remove(device_key@)
                &&& p.1 == read.start()->0.contains_key(device_key@)
            },
            Err(_) => read.start() is None,
        },
{
    match start_of(read) {
        Err(e) => Err(e),
        Ok(mut map) => {
            let removed = map.remove(&device_key.to_owned());
            Ok((map, removed))
        },
    }
}

/// An alias that was given to a device names it, and taking it away undoes that.
pub proof fn lemma_set_then_clear(
    m: Map<Seq<char>, Seq<char>>,
    key: Seq<char>,
    alias: Seq<char>,
)
    requires
        !text::is_blank(alias),
        !m.contains_key(key),
    ensures
        after_set(m, key, alias)[key] == clamped(alias),
        after_set(m, key, alias).remove(key) == m,
        after_set(after_set(m, key, alias), key, Seq::empty()) == m,
{
    assert(m.insert(key, clamped(alias)).remove(key) =~= m);
    let e = Seq::<char>::empty();
    assert(text::trim_front(e) == e);
    assert(text::trim_back(e) == e);
}

/// Cutting an alias to its length never makes it blank.
pub proof fn lemma_clamped_not_blank(alias: Seq<char>)
    requires
        !text::is_blank(alias),
    ensures
        !text::is_blank(clamped(alias)),
{
    let t = text::trimmed(alias);
    text::lemma_trim_front(alias);
    text::lemma_trim_back(text::trim_front(alias));
    assert(t[0] == text::trim_front(alias)[0]);
    let c = clamped(alias);
    assert(c[0] == t[0]);
    assert(text::trim_front(c) == c);
    text::lemma_trim_back(c);
    if text::trim_back(c).len() == 0 {
        assert(text::is_space(c[0]));
    }
}

/// In the table of the stored aliases, a device that was given an alias has that alias.
pub proof fn lemma_set_resolves(
    m: Map<Seq<char>, Seq<char>>,
    key: Seq<char>,
    alias: Seq<char>,
    stored: Seq<(Seq<char>, Seq<char>)>,
)
    requires
        !text::is_blank(alias),
        textmap::ascending(stored),
        textmap::map_of(stored) == after_set(m, key, alias),
    ensures
        resolved(named(stored), key) == Some(clamped(alias)),
{
    lemma_clamped_not_blank(alias);
    assert(textmap::map_of(stored).contains_key(key));
    let i = textmap::place(stored, key);
    assert(stored[i].0 == key);
    textmap::lemma_place(stored, i);
    lemma_named_keeps(stored, i);
    lemma_named(stored);
    let z = choose|z: int| 0 <= z < named(stored).len() && named(stored)[z] == stored[i];
    textmap::lemma_place(named(stored), z);
}

/// Giving one device an alias leaves the aliases of all others alone.
pub proof fn lemma_set_keeps_others(
    m: Map<Seq<char>, Seq<char>>,
    key: Seq<char>,
    alias: Seq<char>,
    other: Seq<char>,
)
    requires
        other != key,
    ensures
        after_set(m, key, alias).contains_key(other) == m.contains_key(other),
        m.contains_key(other) ==> after_set(m, key, alias)[other] == m[other],
{
}

// -------------------------------------------------------------------- migration

/// The first entry whose key has the identity `id`.
pub open spec fn first_with(p: Seq<(Seq<char>, Seq<char>)>, id: Seq<char>) -> int
    decreases p.len(),
{
    if p.len() == 0 {
        -1
    } else {
        let f = first_with(p.drop_last(), id);
        if f >= 0 {
            f
        } else if hardware::identity_of(p.last().0) == id {
            p.len() - 1
        } else {
            -1
        }
    }
}

/// The aliases keyed by hardware identity: an alias that already hangs on the identity
/// stays, else the first one in key order whose path has that identity.
pub open spec fn by_identity(p: Seq<(Seq<char>, Seq<char>)>) -> Map<Seq<char>, Seq<char>> {
    Map::new(
        |id: Seq<char>| first_with(p, id) >= 0,
        |id: Seq<char>|
            if textmap::holds(p, id) && hardware::identity_of(id) == id {
                textmap::map_of(p)[id]
            } else {
                p[first_with(p, id)].1
            },
    )
}

/// Whether some alias hangs on a key that is not an identity.
pub open spec fn has_paths(p: Seq<(Seq<char>, Seq<char>)>) -> bool {
    exists|i: int| 0 <= i < p.len() && hardware::identity_of((#[trigger] p[i]).0) != p[i].0
}

pub proof fn lemma_first_with(p: Seq<(Seq<char>, Seq<char>)>, id: Seq<char>)
    ensures
        -1 <= first_with(p, id) < p.len(),
        first_with(p, id) >= 0 ==> hardware::identity_of(p[first_with(p, id)].0) == id,
        forall|i: int|
            0 <= i < p.len() && (first_with(p, id) < 0 || i < first_with(p, id))
                ==> hardware::identity_of((#[trigger] p[i]).0) != id,
    decreases p.len(),
{
    if p.len() > 0 {
        let t = p.drop_last();
        lemma_first_with(t, id);
        assert forall|i: int|
            0 <= i < p.len() && (first_with(p, id) < 0 || i < first_with(p, id)) implies
            hardware::identity_of((#[trigger] p[i]).0) != id by {
            if i < t.len() {
                assert(t[i] == p[i]);
            }
        }
        if first_with(t, id) >= 0 {
            assert(t[first_with(t, id)] == p[first_with(t, id)]);
        }
    }
}

/// One more entry in key order: it is taken over where it hangs on its identity, and
/// else only where its identity has no alias yet.
proof fn lemma_by_identity_step(p: Seq<(Seq<char>, Seq<char>)>)
    requires
        textmap::ascending(p),
        p.len() > 0,
    ensures
        ({
            let t = p.drop_last();
            let e = p.last();
            let id = hardware::identity_of(e.0);
            by_identity(p) == (if id == e.0 || !by_identity(t).contains_key(id) {
                by_identity(t).insert(id, e.1)
            } else {
                by_identity(t)
            })
        }),
{
    let t = p.drop_last();
    let e = p.last();
    let id = hardware::identity_of(e.0);
    let a = by_identity(p);
    let b = if id == e.0 || !by_identity(t).contains_key(id) {
        by_identity(t).insert(id, e.1)
    } else {
        by_identity(t)
    };
    textmap::lemma_drop_last(p);
    textmap::lemma_place(p, p.len() - 1);
    assert forall|x: Seq<char>| #[trigger] a.contains_key(x) <==> b.contains_key(x) by {
        lemma_first_with(t, x);
    }
    assert forall|x: Seq<char>| a.contains_key(x) implies a[x] == b[x] by {
        lemma_first_with(t, x);
        lemma_first_with(p, x);
        if x == e.0 && id == x {
            assert(textmap::holds(p, x));
        } else {
            if x != e.0 {
                assert(textmap::map_of(t).contains_key(x) == textmap::map_of(p).contains_key(x));
                assert(textmap::holds(t, x) == textmap::holds(p, x));
            }
            if first_with(t, x) >= 0 {
                assert(t[first_with(t, x)] == p[first_with(p, x)]);
            }
            if x == id {
                if first_with(t, x) < 0 {
                    assert(first_with(p, x) == p.len() - 1);
                    if textmap::holds(t, x) && hardware::identity_of(x) == x {
                        let z = textmap::place(t, x);
                        assert(t[z].0 == x);
                    }
                }
            }
        }
    }
    assert(a =~= b);
}

/// The aliases keyed by hardware identity, and whether any alias moved.
pub fn migrate_exact_keys_to_identity(map: &TextMap) -> (r: (TextMap, bool))
    requires
        map.wf(),
    ensures
        r.0.wf(),
        r.0@ == by_identity(textmap::pairs(map.entries@)),
        r.1 == has_paths(textmap::pairs(map.entries@)),
{
    let ghost p = textmap::pairs(map.entries@);
    let mut out = TextMap::new();
    let mut changed = false;
    let mut i: usize = 0;
    proof {
        assert(by_identity(p.take(0)) =~= Map::<Seq<char>, Seq<char>>::empty());
    }
    while i < map.entries.len()
        invariant
            i <= map.entries@.len(),
            p == textmap::pairs(map.entries@),
            textmap::ascending(p),
            out.wf(),
            out@ == by_identity(p.take(i as int)),
            changed == exists|j: int|
                0 <= j < i && hardware::identity_of((#[trigger] p[j]).0) != p[j].0,
        decreases map.entries.len() - i,
    {
        proof {
            let t1 = p.take(i as int + 1);
            assert(t1.drop_last() =~= p.take(i as int));
            assert(t1.last() == p[i as int]);
            assert forall|x: int, y: int| 0 <= x < y < t1.len() implies textmap::before(
                (#[trigger] t1[x]).0,
                (#[trigger] t1[y]).0,
            ) by {
                assert(t1[x] == p[x] && t1[y] == p[y]);
            }
            lemma_by_identity_step(t1);
        }
        let key = map.entries[i].0.as_str();
        let alias = map.entries[i].1.as_str();
        let id = hardware_identity_key(key);
        if str_eq(id.as_str(), key) {
            out.insert(id, alias.to_owned());
        } else {
            assert(hardware::identity_of(p[i as int].0) != p[i as int].0);
            changed = true;
            if out.get(&id).is_none() {
                out.insert(id, alias.to_owned());
            }
        }
        i = i + 1;
    }
    assert(p.take(i as int) =~= p);
    (out, changed)
}

/// Migrating aliases that were migrated before moves nothing and changes nothing.
pub proof fn lemma_migration_idempotent(
    p: Seq<(Seq<char>, Seq<char>)>,
    q: Seq<(Seq<char>, Seq<char>)>,
)
    requires
        textmap::ascending(p),
        textmap::ascending(q),
        textmap::map_of(q) == by_identity(p),
    ensures
        !has_paths(q),
        by_identity(q) == textmap::map_of(q),
{
    assert forall|i: int| 0 <= i < q.len() implies hardware::identity_of((#[trigger] q[i]).0)
        == q[i].0 by {
        textmap::lemma_place(q, i);
        let id = q[i].0;
        assert(by_identity(p).contains_key(id));
        lemma_first_with(p, id);
        hardware::lemma_identity_idempotent(p[first_with(p, id)].0);
    }
    let a = by_identity(q);
    let m = textmap::map_of(q);
    assert forall|x: Seq<char>| #[trigger] a.contains_key(x) <==> m.contains_key(x) by {
        lemma_first_with(q, x);
        if m.contains_key(x) {
            let z = textmap::place(q, x);
            assert(q[z].0 == x);
            assert(hardware::identity_of(q[z].0) == x);
        }
        if a.contains_key(x) {
            let z = first_with(q, x);
            assert(q[z].0 == x);
            assert(textmap::holds(q, x));
        }
    }
    assert forall|x: Seq<char>| a.contains_key(x) implies a[x] == m[x] by {
        lemma_first_with(q, x);
        let z = first_with(q, x);
        assert(q[z].0 == x);
        assert(textmap::holds(q, x));
    }
    assert(a =~= m);
}

// ------------------------------------------------------------------------ cache

/// The alias table that was read last, with the file's path and time of change.
pub struct AliasCache {
    pub slot: Option<(Option<i64>, String, AliasTable)>,
}

impl AliasCache {
    /// Whether the cached table is that of the file `path` as it was changed at `mtime`.
    pub open spec fn hits(&self, mtime: Option<i64>, path: Seq<char>) -> bool {
        match self.slot {
            Some(s) => s.0 == mtime && s.1@ == path,
            None => false,
        }
    }

    /// A cached table is well-formed.
    pub open spec fn wf(&self) -> bool {
        self.slot matches Some(s) ==> s.2.wf()
    }
}

/// The cached table of the file `path` as it was changed at `mtime`.
pub fn cached_table<'a>(cache: &'a AliasCache, mtime: Option<i64>, path: &str) -> (r: Option<
    &'a AliasTable,
>)
    ensures
        match r {
            Some(t) => cache.hits(mtime, path@) && *t == (cache.slot->0).2,
            None => !cache.hits(mtime, path@),
        },
{
    match &cache.slot {
        Some(s) => {
            let same = match (&s.0, &mtime) {
                (Some(a), Some(b)) => *a == *b,
                (None, None) => true,
                _ => false,
            };
            if same && str_eq(s.1.as_str(), path) {
                Some(&s.2)
            } else {
                None
            }
        },
        None => None,
    }
}

/// The alias table of a file that was just read. It is cached only where the file could
/// be read: otherwise the table is empty this once, and the cache stays as it was.
pub fn table(cache: &mut AliasCache, mtime: Option<i64>, path: &str, read: AliasRead) -> (r:
    AliasTable)
    requires
        read.wf(),
        old(cache).wf(),
    ensures
        r.wf(),
        final(cache).wf(),
        match read {
            AliasRead::Good(m) => {
                &&& r.aliases() == named(textmap::pairs(m.entries@))
                &&& final(cache).hits(mtime, path@)
                &&& (final(cache).slot->0).2.aliases() == r.aliases()
            },
            _ => r.aliases().len() == 0 && *final(cache) == *old(cache),
        },
{
    match read {
        AliasRead::Good(m) => {
            let t = AliasTable::from_map(&m);
            cache.slot = Some((mtime, path.to_owned(), AliasTable::from_map(&m)));
            t
        },
        _ => {
            let e = TextMap::new();
            AliasTable::from_map(&e)
        },
    }
}

/// Drops the cached table.
pub fn invalidate_cache(cache: &mut AliasCache)
    ensures
        final(cache).slot is None,
        final(cache).wf(),
{
    cache.slot = None;
}

/// The alias of a device is that of its own key where there is one; else the one that all
/// aliased devices of its model have, where there are such devices and none of them has
/// another.
pub proof fn lemma_alias_of(
    p: Seq<(Seq<char>, Seq<char>)>,
    key: Seq<char>,
    i: int,
    j: int,
)
    requires
        textmap::ascending(p),
        0 <= i < p.len(),
        0 <= j < p.len(),
    ensures
        p[i].0 == key ==> resolved(p, key) == Some(p[i].1),
        !textmap::holds(p, key) && hardware::model_of(key) is None ==> resolved(p, key) is None,
        !textmap::holds(p, key) && hardware::model_of(p[i].0) == hardware::model_of(key)
            && hardware::model_of(p[j].0) == hardware::model_of(key) && p[i].1 != p[j].1
            ==> resolved(p, key) is None,
        !textmap::holds(p, key) && hardware::model_of(key) is Some && hardware::model_of(p[i].0)
            == hardware::model_of(key) && (forall|k: int|
            0 <= k < p.len() && hardware::model_of((#[trigger] p[k]).0) == hardware::model_of(key)
                ==> p[k].1 == p[i].1) ==> resolved(p, key) == Some(p[i].1),
        !textmap::holds(p, key) && resolved(p, key) is Some ==> exists|k: int|
            0 <= k < p.len() && hardware::model_of((#[trigger] p[k]).0) == hardware::model_of(key)
                && resolved(p, key) == Some(p[k].1),
{
    if p[i].0 == key {
        textmap::lemma_place(p, i);
    }
    if !textmap::holds(p, key) && hardware::model_of(key) is Some {
        let m = hardware::model_of(key)->0;
        assert(carries(p, m, i) <==> hardware::model_of(p[i].0) == Some(m));
        assert(carries(p, m, j) <==> hardware::model_of(p[j].0) == Some(m));
        if is_carried(p, m) {
            let c = choose|c: int| carries(p, m, c);
            assert(hardware::model_of(p[c].0) == Some(m));
        }
        if hardware::model_of(p[i].0) == Some(m) && (forall|k: int|
            0 <= k < p.len() && hardware::model_of((#[trigger] p[k]).0) == hardware::model_of(key)
                ==> p[k].1 == p[i].1) {
            assert(is_carried(p, m));
            assert forall|a: int, b: int|
                #![trigger carries(p, m, a), carries(p, m, b)]
                carries(p, m, a) && carries(p, m, b) implies p[a].1 == p[b].1 by {
                assert(hardware::model_of(p[a].0) == Some(m));
                assert(hardware::model_of(p[b].0) == Some(m));
            }
        }
    }
}

/// The aliases of a file are those of it that are not blank.
pub proof fn lemma_blank_aliases_are_left_out(
    p: Seq<(Seq<char>, Seq<char>)>,
    e: (Seq<char>, Seq<char>),
)
    ensures
        named(p).contains(e) <==> p.contains(e) && text::trimmed(e.1).len() > 0,
    decreases p.len(),
{
    if p.len() > 0 {
        let t = p.drop_last();
        let r = named(t);
        let a = named(p);
        lemma_blank_aliases_are_left_out(t, e);
        assert(p[p.len() - 1] == p.last());
        if t.contains(e) {
            let i = choose|i: int| 0 <= i < t.len() && t[i] == e;
            assert(p[i] == e);
        }
        if p.contains(e) {
            let i = choose|i: int| 0 <= i < p.len() && p[i] == e;
            if i < t.len() {
                assert(t[i] == e);
            }
        }
        if r.contains(e) {
            let i = choose|i: int| 0 <= i < r.len() && r[i] == e;
            assert(a[i] == e);
        }
        if !text::is_blank(p.last().1) {
            assert(a[a.len() - 1] == p.last());
            if a.contains(e) {
                let i = choose|i: int| 0 <= i < a.len() && a[i] == e;
                if i < r.len() {
                    assert(r[i] == e);
                }
            }
        }
    }
}

/// An alias is what was given without white space around it, and of that no more than the
/// first 24 characters.
pub proof fn lemma_alias_is_short(alias: Seq<char>)
    ensures
        clamped(alias).len() <= 24,
        text::trimmed(alias).len() <= 24 ==> clamped(alias) == text::trimmed(alias),
        text::trimmed(alias).len() > 24 ==> clamped(alias) == text::trimmed(alias).take(24),
{
}

/// A device has an alias after the keys were brought to what identifies devices exactly where
/// one of its keys had one: that of the key itself where there was one, else the first of
/// those of its keys.
pub proof fn lemma_aliases_follow_identity(p: Seq<(Seq<char>, Seq<char>)>, id: Seq<char>, i: int)
    requires
        textmap::ascending(p),
        0 <= i < p.len(),
    ensures
        by_identity(p).contains_key(id) <==> exists|k: int|
            0 <= k < p.len() && hardware::identity_of((#[trigger] p[k]).0) == id,
        p[i].0 == id && hardware::identity_of(id) == id ==> by_identity(p)[id] == p[i].1,
        hardware::identity_of(p[i].0) == id && !textmap::holds(p, id) && (forall|k: int|
            0 <= k < i ==> hardware::identity_of((#[trigger] p[k]).0) != id) ==> by_identity(p)[id]
            == p[i].1,
{
    lemma_first_with(p, id);
    let f = first_with(p, id);
    if f >= 0 {
        assert(hardware::identity_of(p[f].0) == id);
    }
    if p[i].0 == id && hardware::identity_of(id) == id {
        textmap::lemma_place(p, i);
        assert(by_identity(p).contains_key(id));
    }
    if hardware::identity_of(p[i].0) == id && (forall|k: int|
        0 <= k < i ==> hardware::identity_of((#[trigger] p[k]).0) != id) {
        if f < i && f >= 0 {
            assert(hardware::identity_of(p[f].0) != id);
        }
        assert(f == i);
        assert(by_identity(p).contains_key(id));
    }
}

/// What is kept answers for one file in one state alone.
pub proof fn lemma_cache_answers_for_one_file(
    c: AliasCache,
    at: Option<i64>,
    path: Seq<char>,
    later: Option<i64>,
    other: Seq<char>,
)
    requires
        c.hits(at, path),
    ensures
        c.hits(later, other) <==> later == at && other == path,
{
}

} // verus!
