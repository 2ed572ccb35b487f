//! The command cache: the authoritative mapping from a normalized command
//! name to its resource locators.
//!
//! The map is kept as an association list sorted strictly by the
//! lexicographic order of the keys, so listing is sorted for free and every
//! key occurs once. A refresh replaces the whole map — never a diff — so a
//! command removed upstream cannot linger; when the fetch behind a refresh
//! fails, the old map stays untouched. Lookup is by exact normalized name,
//! with a fallback to the unique key that the requested name is a prefix of,
//! if there is exactly one such key.

use vstd::prelude::*;

use crate::catalog::SupabaseCommandItem;
use crate::text::is_normalized;
use crate::text::join_names;
use crate::text::join_with;
use crate::text::lemma_lex_lt_connected;
use crate::text::lemma_lex_lt_irreflexive;
use crate::text::lemma_lex_lt_transitive;
use crate::text::lemma_norm_idempotent;
use crate::text::lex_lt;
use crate::text::norm_spec;
use crate::text::normalize_name;
use crate::text::str_lt;
use crate::text::str_starts_with;

verus! {

/// Abstract content of the cache: `(key, locators)` pairs in key order.
pub type CommandMap = Seq<(Seq<char>, Seq<Seq<char>>)>;

/// Keys are strictly sorted (hence unique) and normalized, and every key
/// holds at least one locator.
pub open spec fn map_wf(m: CommandMap) -> bool {
    &&& forall|i: int, j: int|
        0 <= i < j < m.len() ==> lex_lt((#[trigger] m[i]).0, (#[trigger] m[j]).0)
    &&& forall|i: int| 0 <= i < m.len() ==> (#[trigger] m[i]).1.len() > 0
    &&& forall|i: int| 0 <= i < m.len() ==> is_normalized((#[trigger] m[i]).0)
}

pub open spec fn keys_of(m: CommandMap) -> Seq<Seq<char>> {
    m.map_values(|p: (Seq<char>, Seq<Seq<char>>)| p.0)
}

pub open spec fn contains_key(m: CommandMap, k: Seq<char>) -> bool {
    exists|i: int| 0 <= i < m.len() && (#[trigger] m[i]).0 == k
}

pub open spec fn index_of_key(m: CommandMap, k: Seq<char>) -> int {
    choose|i: int| 0 <= i < m.len() && (#[trigger] m[i]).0 == k
}

/// The locators stored under key `k`.
pub open spec fn locators_of(m: CommandMap, k: Seq<char>) -> Seq<Seq<char>> {
    m[index_of_key(m, k)].1
}

/// In a well-formed map a key determines its position.
pub proof fn lemma_key_unique(m: CommandMap, i: int, j: int)
    requires
        map_wf(m),
        0 <= i < m.len(),
        0 <= j < m.len(),
        m[i].0 == m[j].0,
    ensures
        i == j,
{
    if i != j {
        lemma_lex_lt_irreflexive(m[i].0);
    }
}

/// Insertion into the sorted association list: a new key takes its sorted
/// place with a single locator; an existing key gains one more locator at
/// the end of its list.
pub open spec fn spec_insert(m: CommandMap, k: Seq<char>, u: Seq<char>) -> CommandMap
    decreases m.len(),
{
    if m.len() == 0 {
        seq![(k, seq![u])]
    } else if lex_lt(m[0].0, k) {
        seq![m[0]] + spec_insert(m.drop_first(), k, u)
    } else if m[0].0 == k {
        seq![(k, m[0].1.push(u))] + m.drop_first()
    } else {
        seq![(k, seq![u])] + m
    }
}

/// The map built from a run of catalog records: every record contributes
/// its locator under its normalized command name, in record order.
pub open spec fn spec_build(items: Seq<SupabaseCommandItem>, api: Seq<char>) -> CommandMap
    decreases items.len(),
{
    if items.len() == 0 {
        Seq::empty()
    } else {
        spec_insert(
            spec_build(items.drop_last(), api),
            norm_spec(items.last().command@),
            resource_url_spec(items.last(), api),
        )
    }
}

/// The resource locator synthesized for one catalog record:
/// `{base}/api/files/{collection}/{record}/{file}`.
pub open spec fn resource_url_spec(item: SupabaseCommandItem, api: Seq<char>) -> Seq<char> {
    api + "/api/files/"@ + item.collectionId@ + "/"@ + item.id@ + "/"@ + item.sound@
}

/// Where the scan for `k` stops, `spec_insert` either updates the entry in
/// place (same key) or splices a fresh entry in.
proof fn lemma_spec_insert_at(m: CommandMap, k: Seq<char>, u: Seq<char>, idx: int)
    requires
        0 <= idx <= m.len(),
        forall|j: int| 0 <= j < idx ==> lex_lt((#[trigger] m[j]).0, k),
        idx < m.len() ==> !lex_lt(m[idx].0, k),
    ensures
        idx < m.len() && m[idx].0 == k ==> spec_insert(m, k, u) == m.update(
            idx,
            (k, m[idx].1.push(u)),
        ),
        !(idx < m.len() && m[idx].0 == k) ==> spec_insert(m, k, u) == m.insert(
            idx,
            (k, seq![u]),
        ),
    decreases idx,
{
    if idx == 0 {
        if m.len() == 0 {
            assert(spec_insert(m, k, u) =~= m.insert(0, (k, seq![u])));
        } else if m[0].0 == k {
            assert(spec_insert(m, k, u) =~= m.update(0, (k, m[0].1.push(u))));
        } else {
            assert(spec_insert(m, k, u) =~= m.insert(0, (k, seq![u])));
        }
    } else {
        assert(lex_lt(m[0].0, k));
        let t = m.drop_first();
        assert(forall|j: int| 0 <= j < idx - 1 ==> lex_lt((#[trigger] t[j]).0, k));
        lemma_spec_insert_at(t, k, u, idx - 1);
        if idx < m.len() && m[idx].0 == k {
            assert(t[idx - 1].0 == k);
            assert(seq![m[0]] + t.update(idx - 1, (k, t[idx - 1].1.push(u))) =~= m.update(
                idx,
                (k, m[idx].1.push(u)),
            ));
        } else {
            assert(seq![m[0]] + t.insert(idx - 1, (k, seq![u])) =~= m.insert(idx, (k, seq![u])));
        }
    }
}

/// `spec_insert` adds exactly one key.
proof fn lemma_spec_insert_contains(m: CommandMap, k2: Seq<char>, u: Seq<char>, k: Seq<char>)
    ensures
        contains_key(spec_insert(m, k2, u), k) <==> (contains_key(m, k) || k == k2),
    decreases m.len(),
{
    let w = spec_insert(m, k2, u);
    if m.len() == 0 {
        assert(w[0].0 == k2);
        if contains_key(w, k) {
            let i = choose|i: int| 0 <= i < w.len() && (#[trigger] w[i]).0 == k;
            assert(i == 0);
        }
    } else if lex_lt(m[0].0, k2) {
        let t = m.drop_first();
        lemma_spec_insert_contains(t, k2, u, k);
        let wt = spec_insert(t, k2, u);
        assert(w == seq![m[0]] + wt);
        if contains_key(w, k) {
            let i = choose|i: int| 0 <= i < w.len() && (#[trigger] w[i]).0 == k;
            if i == 0 {
                assert(m[0].0 == k);
                assert(contains_key(m, k));
            } else {
                assert(wt[i - 1].0 == k);
                assert(contains_key(wt, k));
                if contains_key(t, k) {
                    let j = choose|j: int| 0 <= j < t.len() && (#[trigger] t[j]).0 == k;
                    assert(m[j + 1].0 == k);
                    assert(contains_key(m, k));
                }
            }
        }
        if k == k2 {
            assert(contains_key(wt, k));
            let j = choose|j: int| 0 <= j < wt.len() && (#[trigger] wt[j]).0 == k;
            assert(w[j + 1].0 == k);
            assert(contains_key(w, k));
        }
        if contains_key(m, k) {
            let i = choose|i: int| 0 <= i < m.len() && (#[trigger] m[i]).0 == k;
            if i == 0 {
                assert(w[0].0 == k);
            } else {
                assert(t[i - 1].0 == k);
                assert(contains_key(t, k));
                assert(contains_key(wt, k));
                let j = choose|j: int| 0 <= j < wt.len() && (#[trigger] wt[j]).0 == k;
                assert(w[j + 1].0 == k);
            }
            assert(contains_key(w, k));
        }
    } else if m[0].0 == k2 {
        assert(w == seq![(k2, m[0].1.push(u))] + m.drop_first());
        if contains_key(w, k) {
            let i = choose|i: int| 0 <= i < w.len() && (#[trigger] w[i]).0 == k;
            if i == 0 {
                assert(k == k2);
            } else {
                assert(m[i].0 == k);
                assert(contains_key(m, k));
            }
        }
        if k == k2 {
            assert(w[0].0 == k);
            assert(contains_key(w, k));
        }
        if contains_key(m, k) {
            let i = choose|i: int| 0 <= i < m.len() && (#[trigger] m[i]).0 == k;
            if i == 0 {
                assert(w[0].0 == k);
            } else {
                assert(w[i].0 == k);
            }
            assert(contains_key(w, k));
        }
    } else {
        assert(w == seq![(k2, seq![u])] + m);
        if contains_key(w, k) {
            let i = choose|i: int| 0 <= i < w.len() && (#[trigger] w[i]).0 == k;
            if i == 0 {
                assert(k == k2);
            } else {
                assert(m[i - 1].0 == k);
                assert(contains_key(m, k));
            }
        }
        if k == k2 {
            assert(w[0].0 == k);
            assert(contains_key(w, k));
        }
        if contains_key(m, k) {
            let i = choose|i: int| 0 <= i < m.len() && (#[trigger] m[i]).0 == k;
            assert(w[i + 1].0 == k);
            assert(contains_key(w, k));
        }
    }
}

/// Law: a successful refresh replaces the map wholesale. The rebuilt map
/// holds a key exactly when some fetched record's normalized name is that
/// key — nothing of any earlier map can linger or mix in, so a command
/// removed upstream disappears with the refresh that notices it.
pub proof fn lemma_build_keys_exact(items: Seq<SupabaseCommandItem>, api: Seq<char>, k: Seq<char>)
    ensures
        contains_key(spec_build(items, api), k) <==> exists|i: int|
            0 <= i < items.len() && norm_spec((#[trigger] items[i]).command@) == k,
    decreases items.len(),
{
    if items.len() == 0 {
        if contains_key(spec_build(items, api), k) {
            let i = choose|i: int|
                0 <= i < spec_build(items, api).len() && (#[trigger] spec_build(items, api)[i]).0
                    == k;
            assert(false);
        }
    } else {
        let head = items.drop_last();
        let b = spec_build(head, api);
        lemma_build_keys_exact(head, api, k);
        lemma_spec_insert_contains(
            b,
            norm_spec(items.last().command@),
            resource_url_spec(items.last(), api),
            k,
        );
        if contains_key(spec_build(items, api), k) {
            if contains_key(b, k) {
                let i = choose|i: int|
                    0 <= i < head.len() && norm_spec((#[trigger] head[i]).command@) == k;
                assert(items[i] == head[i]);
                assert(norm_spec(items[i].command@) == k);
            } else {
                assert(norm_spec(items[items.len() - 1].command@) == k);
            }
        }
        if exists|i: int| 0 <= i < items.len() && norm_spec((#[trigger] items[i]).command@) == k {
            let i = choose|i: int|
                0 <= i < items.len() && norm_spec((#[trigger] items[i]).command@) == k;
            if i < items.len() - 1 {
                assert(head[i] == items[i]);
                assert(contains_key(b, k));
            } else {
                assert(k == norm_spec(items.last().command@));
            }
            assert(contains_key(spec_build(items, api), k));
        }
    }
}

struct CommandEntry {
    name: String,
    locators: Vec<String>,
}

/// The command cache. Created empty at startup and filled by the first
/// refresh; every refresh swaps in a wholly rebuilt map.
pub struct CommandManager {
    commands: Vec<CommandEntry>,
}

impl View for CommandManager {
    type V = CommandMap;

    closed spec fn view(&self) -> CommandMap {
        self.commands@.map_values(
            |e: CommandEntry| (e.name@, e.locators@.map_values(|l: String| l@)),
        )
    }
}

impl CommandManager {
    pub open spec fn wf(self) -> bool {
        map_wf(self@)
    }

    /// An empty cache: the startup policy is to begin serving immediately
    /// and let the first refresh populate the map.
    pub fn new() -> (r: CommandManager)
        ensures
            r.wf(),
            r@ == Seq::<(Seq<char>, Seq<Seq<char>>)>::empty(),
    {
        let r = CommandManager { commands: Vec::new() };
        proof {
            assert(r@ =~= Seq::<(Seq<char>, Seq<Seq<char>>)>::empty());
        }
        r
    }

    /// Where `name` belongs in the sorted backing vector: the first index
    /// whose key is not below `name`.
    fn insert_position(&self, name: &str) -> (idx: usize)
        requires
            self.wf(),
        ensures
            idx <= self@.len(),
            forall|j: int| 0 <= j < idx ==> lex_lt((#[trigger] self@[j]).0, name@),
            idx < self@.len() ==> !lex_lt(self@[idx as int].0, name@),
    {
        let mut idx: usize = 0;
        while idx < self.commands.len() && str_lt(self.commands[idx].name.as_str(), name)
            invariant
                self.wf(),
                idx <= self.commands@.len(),
                self@.len() == self.commands@.len(),
                forall|j: int| 0 <= j < idx ==> lex_lt((#[trigger] self@[j]).0, name@),
            decreases self.commands@.len() - idx,
        {
            proof {
                assert(self@[idx as int].0 == self.commands@[idx as int].name@);
            }
            idx = idx + 1;
        }
        idx
    }

    /// Record one more locator under a normalized command name.
    fn insert_locator(&mut self, name: String, locator: String)
        requires
            old(self).wf(),
            is_normalized(name@),
        ensures
            final(self).wf(),
            final(self)@ == spec_insert(old(self)@, name@, locator@),
    {
        let ghost m = self@;
        let ghost k = name@;
        let ghost u = locator@;
        let idx = self.insert_position(name.as_str());
        proof {
            lemma_spec_insert_at(m, k, u, idx as int);
        }
        let ghost before = self.commands@;
        if idx < self.commands.len() && self.commands[idx].name == name {
            let mut entry = self.commands.remove(idx);
            let ghost removed = self.commands@;
            entry.locators.push(locator);
            let ghost ev = entry;
            self.commands.insert(idx, entry);
            proof {
                before.remove_ensures(idx as int);
                removed.insert_ensures(idx as int, ev);
                assert(self.commands@ =~= before.update(idx as int, ev));
                assert(ev.name@ == k);
                assert(ev.locators@.map_values(|l: String| l@) =~= m[idx as int].1.push(u));
                assert(self@ =~= m.update(idx as int, (k, m[idx as int].1.push(u))));
                let w = self@;
                assert forall|i: int, j: int| 0 <= i < j < w.len() implies lex_lt(
                    (#[trigger] w[i]).0,
                    (#[trigger] w[j]).0,
                ) by {
                    assert(w[i].0 == m[i].0);
                    assert(w[j].0 == m[j].0);
                }
                assert(map_wf(w));
            }
        } else {
            proof {
                if idx < self.commands.len() {
                    assert(self@[idx as int].0 == self.commands@[idx as int].name@);
                    lemma_lex_lt_connected(self@[idx as int].0, k);
                    assert(lex_lt(k, m[idx as int].0));
                }
            }
            let entry = CommandEntry { name, locators: vec![locator] };
            let ghost ev = entry;
            self.commands.insert(idx, entry);
            proof {
                before.insert_ensures(idx as int, ev);
                assert(ev.name@ == k);
                assert(ev.locators@.map_values(|l: String| l@) =~= seq![u]);
                assert(self@ =~= m.insert(idx as int, (k, seq![u])));
                let w = self@;
                assert forall|i: int, j: int| 0 <= i < j < w.len() implies lex_lt(
                    (#[trigger] w[i]).0,
                    (#[trigger] w[j]).0,
                ) by {
                    if j < idx {
                        assert(w[i] == m[i] && w[j] == m[j]);
                    } else if i > idx {
                        assert(w[i] == m[i - 1] && w[j] == m[j - 1]);
                    } else if i < idx && j == idx {
                        assert(w[i] == m[i]);
                        assert(lex_lt(m[i].0, k));
                    } else if i == idx {
                        assert(w[j] == m[j - 1]);
                        assert(lex_lt(k, m[idx as int].0));
                        if j - 1 > idx {
                            lemma_lex_lt_transitive(k, m[idx as int].0, m[j - 1].0);
                        }
                    } else {
                        assert(i < idx && j > idx);
                        assert(w[i] == m[i] && w[j] == m[j - 1]);
                        assert(lex_lt(m[i].0, k));
                        assert(lex_lt(k, m[idx as int].0));
                        if j - 1 > idx {
                            lemma_lex_lt_transitive(k, m[idx as int].0, m[j - 1].0);
                        }
                        lemma_lex_lt_transitive(m[i].0, k, m[j - 1].0);
                    }
                }
                assert(map_wf(w));
            }
        }
    }

    /// The resource locator for one catalog record.
    pub fn format_api_url(item: &SupabaseCommandItem, api: &String) -> (r: String)
        ensures
            r@ == resource_url_spec(*item, api@),
    {
        let mut out = api.clone();
        out.append("/api/files/");
        out.append(item.collectionId.as_str());
        out.append("/");
        out.append(item.id.as_str());
        out.append("/");
        out.append(item.sound.as_str());
        out
    }

    /// Build a fresh map from one full catalog listing: each record files
    /// its synthesized locator under its normalized command name.
    pub fn build_command_map(items: &Vec<SupabaseCommandItem>, api: &String) -> (r: CommandManager)
        ensures
            r.wf(),
            r@ == spec_build(items@, api@),
    {
        let mut r = CommandManager::new();
        let mut i: usize = 0;
        while i < items.len()
            invariant
                i <= items@.len(),
                r.wf(),
                r@ == spec_build(items@.take(i as int), api@),
            decreases items@.len() - i,
        {
            let name = normalize_name(items[i].command.as_str());
            proof {
                lemma_norm_idempotent(items@[i as int].command@);
            }
            let url = CommandManager::format_api_url(&items[i], api);
            r.insert_locator(name, url);
            proof {
                let stepped = items@.take(i + 1 as int);
                assert(stepped.drop_last() =~= items@.take(i as int));
                assert(stepped.last() == items@[i as int]);
            }
            i = i + 1;
        }
        proof {
            assert(items@.take(items@.len() as int) =~= items@);
        }
        r
    }

    /// Apply the outcome of one refresh: a successful fetch replaces the
    /// map wholesale; a failed fetch (nothing came back) leaves the cache
    /// exactly as it was, to be retried on the next tick.
    pub fn apply_refresh(&mut self, fetched: Option<Vec<SupabaseCommandItem>>, api: &String)
        requires
            old(self).wf(),
        ensures
            final(self).wf(),
            match fetched {
                Some(items) => final(self)@ == spec_build(items@, api@),
                None => final(self)@ == old(self)@,
            },
    {
        match fetched {
            Some(items) => {
                let built = CommandManager::build_command_map(&items, api);
                self.commands = built.commands;
                proof {
                    assert(self@ == built@);
                }
            }
            None => {}
        }
    }
}

/// Autocomplete suggestions are capped for the transport's response limit.
pub const AUTOCOMPLETE_LIMIT: usize = 25;

/// The keys that the requested (normalized) name is a prefix of, in key
/// order: the candidates for fallback resolution and for autocomplete.
pub open spec fn prefix_candidates(m: CommandMap, n: Seq<char>) -> Seq<Seq<char>> {
    keys_of(m).filter(|s: Seq<char>| n.is_prefix_of(s))
}

proof fn lemma_filter_push<A>(s: Seq<A>, x: A, pred: spec_fn(A) -> bool)
    ensures
        s.push(x).filter(pred) == if pred(x) {
            s.filter(pred).push(x)
        } else {
            s.filter(pred)
        },
{
    reveal(Seq::filter);
    assert(s.push(x).drop_last() =~= s);
    assert(s.push(x).last() == x);
}

/// Relies on rand's `Rng::gen_range` over `0..n`: the sampled value lies in
/// the range, and the call panics only on an empty range, which `n >= 1`
/// rules out.
#[verifier::external_body]
fn pick_index(n: usize) -> (r: usize)
    requires
        1 <= n,
    ensures
        r < n,
{
    rand::Rng::gen_range(&mut rand::thread_rng(), 0..n)
}

impl CommandManager {
    /// The position of the entry for `name`, an exact key.
    fn find_entry(&self, name: &String) -> (r: Option<usize>)
        requires
            self.wf(),
        ensures
            match r {
                Some(i) => {
                    &&& i < self@.len()
                    &&& self@[i as int].0 == name@
                    &&& i == index_of_key(self@, name@)
                },
                None => !contains_key(self@, name@),
            },
    {
        let mut i: usize = 0;
        while i < self.commands.len()
            invariant
                self.wf(),
                i <= self@.len(),
                self@.len() == self.commands@.len(),
                forall|j: int| 0 <= j < i ==> (#[trigger] self@[j]).0 != name@,
            decreases self.commands@.len() - i,
        {
            proof {
                assert(self@[i as int].0 == self.commands@[i as int].name@);
            }
            if self.commands[i].name == *name {
                proof {
                    assert(contains_key(self@, name@));
                    let w = index_of_key(self@, name@);
                    lemma_key_unique(self@, i as int, w);
                }
                return Some(i);
            }
            i = i + 1;
        }
        None
    }

    /// One locator of the entry at `i`, chosen at random among its variants.
    fn pick_locator(&self, i: usize) -> (r: String)
        requires
            self.wf(),
            i < self@.len(),
        ensures
            self@[i as int].1.contains(r@),
    {
        proof {
            assert(self@[i as int].1.len() == self.commands@[i as int].locators@.len());
        }
        let n = self.commands[i].locators.len();
        let pick = pick_index(n);
        let uri = self.commands[i].locators[pick].clone();
        proof {
            assert(self@[i as int].1[pick as int] == uri@);
        }
        uri
    }

    /// Resolve a requested sound name to one of its locators.
    ///
    /// The name is normalized first. An exact key answers with one of its
    /// locators, chosen at random among the variants. Otherwise the keys
    /// that the name is a prefix of are the candidates: exactly one
    /// candidate resolves to that candidate (one fallback hop); none, or
    /// several (ambiguity), resolve to nothing. The returned string is the
    /// name that answered — the normalized request, or the one candidate.
    pub fn get_sound_uri(&self, sound: String) -> (r: (String, Option<String>))
        requires
            self.wf(),
        ensures
            ({
                let n = norm_spec(sound@);
                let cands = prefix_candidates(self@, n);
                &&& contains_key(self@, n) ==> {
                    &&& r.0@ == n
                    &&& r.1 matches Some(uri) && locators_of(self@, n).contains(uri@)
                }
                &&& (!contains_key(self@, n) && cands.len() == 1) ==> {
                    &&& r.0@ == cands[0]
                    &&& contains_key(self@, cands[0])
                    &&& r.1 matches Some(uri) && locators_of(self@, cands[0]).contains(uri@)
                }
                &&& (!contains_key(self@, n) && cands.len() != 1) ==> {
                    &&& r.0@ == n
                    &&& r.1 is None
                }
            }),
    {
        let name = normalize_name(sound.as_str());
        let ghost n = name@;
        let ghost ks = keys_of(self@);
        let ghost pred = |s: Seq<char>| n.is_prefix_of(s);
        match self.find_entry(&name) {
            Some(i) => {
                let uri = self.pick_locator(i);
                (name, Some(uri))
            }
            None => {
                let mut count: usize = 0;
                let mut last: usize = 0;
                let mut j: usize = 0;
                while j < self.commands.len()
                    invariant
                        self.wf(),
                        n == name@,
                        ks == keys_of(self@),
                        pred == (|s: Seq<char>| n.is_prefix_of(s)),
                        j <= self@.len(),
                        self@.len() == self.commands@.len(),
                        count == ks.take(j as int).filter(pred).len(),
                        count <= j,
                        count > 0 ==> last < j && ks.take(j as int).filter(pred)[count - 1]
                            == ks[last as int],
                    decreases self.commands@.len() - j,
                {
                    proof {
                        assert(self@[j as int].0 == self.commands@[j as int].name@);
                        assert(ks[j as int] == self@[j as int].0);
                        lemma_filter_push(ks.take(j as int), ks[j as int], pred);
                        assert(ks.take(j + 1 as int) =~= ks.take(j as int).push(ks[j as int]));
                    }
                    if str_starts_with(self.commands[j].name.as_str(), name.as_str()) {
                        count = count + 1;
                        last = j;
                    }
                    j = j + 1;
                }
                proof {
                    assert(ks.take(self@.len() as int) =~= ks);
                }
                if count == 1 {
                    let ghost cands = prefix_candidates(self@, n);
                    proof {
                        assert(cands[0] == ks[last as int]);
                        assert(contains_key(self@, cands[0]));
                        let w = index_of_key(self@, cands[0]);
                        lemma_key_unique(self@, last as int, w);
                    }
                    let resolved = self.commands[last].name.clone();
                    let uri = self.pick_locator(last);
                    (resolved, Some(uri))
                } else {
                    (name, None)
                }
            }
        }
    }

    /// All command names, in sorted order.
    pub fn get_commands(&self) -> (r: Vec<String>)
        ensures
            r@.map_values(|s: String| s@) == keys_of(self@),
    {
        let mut out: Vec<String> = Vec::new();
        let mut i: usize = 0;
        while i < self.commands.len()
            invariant
                i <= self@.len(),
                self@.len() == self.commands@.len(),
                out@.map_values(|s: String| s@) == keys_of(self@).take(i as int),
            decreases self.commands@.len() - i,
        {
            out.push(self.commands[i].name.clone());
            proof {
                let ks = keys_of(self@);
                assert(self@[i as int].0 == self.commands@[i as int].name@);
                assert(ks[i as int] == self@[i as int].0);
                assert(out@.map_values(|s: String| s@) =~= ks.take(i as int).push(ks[i as int]));
                assert(ks.take(i + 1 as int) =~= ks.take(i as int).push(ks[i as int]));
            }
            i = i + 1;
        }
        proof {
            assert(keys_of(self@).take(self@.len() as int) =~= keys_of(self@));
        }
        out
    }

    /// The command list rendered for humans: all names, sorted, separated
    /// by commas.
    pub fn get_human_readable_command_list(&self) -> (r: String)
        ensures
            r@ == join_with(keys_of(self@), ", "@),
    {
        let names = self.get_commands();
        join_names(&names, ", ")
    }

    /// Autocomplete: the sorted keys that the (normalized) typed prefix
    /// starts, capped at the transport's limit.
    pub fn autocomplete(&self, prefix: &str) -> (r: Vec<String>)
        requires
            self.wf(),
        ensures
            ({
                let cands = prefix_candidates(self@, norm_spec(prefix@));
                r@.map_values(|s: String| s@) == if cands.len() <= AUTOCOMPLETE_LIMIT as int {
                    cands
                } else {
                    cands.take(AUTOCOMPLETE_LIMIT as int)
                }
            }),
    {
        let p = normalize_name(prefix);
        let ghost n = p@;
        let ghost ks = keys_of(self@);
        let ghost pred = |s: Seq<char>| n.is_prefix_of(s);
        let mut out: Vec<String> = Vec::new();
        let mut j: usize = 0;
        while j < self.commands.len()
            invariant
                self.wf(),
                n == p@,
                ks == keys_of(self@),
                pred == (|s: Seq<char>| n.is_prefix_of(s)),
                j <= self@.len(),
                self@.len() == self.commands@.len(),
                out@.map_values(|s: String| s@) == ks.take(j as int).filter(pred),
            decreases self.commands@.len() - j,
        {
            proof {
                assert(self@[j as int].0 == self.commands@[j as int].name@);
                assert(ks[j as int] == self@[j as int].0);
                lemma_filter_push(ks.take(j as int), ks[j as int], pred);
                assert(ks.take(j + 1 as int) =~= ks.take(j as int).push(ks[j as int]));
            }
            if str_starts_with(self.commands[j].name.as_str(), p.as_str()) {
                out.push(self.commands[j].name.clone());
                proof {
                    assert(out@.map_values(|s: String| s@) =~= ks.take(j as int).filter(
                        pred,
                    ).push(ks[j as int]));
                }
            }
            j = j + 1;
        }
        proof {
            assert(ks.take(self@.len() as int) =~= ks);
        }
        let ghost cands = prefix_candidates(self@, n);
        out.truncate(AUTOCOMPLETE_LIMIT);
        proof {
            if cands.len() > AUTOCOMPLETE_LIMIT as int {
                assert(out@.map_values(|s: String| s@) =~= cands.take(
                    AUTOCOMPLETE_LIMIT as int,
                ));
            }
        }
        out
    }
}

impl Default for CommandManager {
    /// Same startup policy as `new`: empty until the first refresh.
    fn default() -> (r: CommandManager)
        ensures
            r.wf(),
            r@ == Seq::<(Seq<char>, Seq<Seq<char>>)>::empty(),
    {
        CommandManager::new()
    }
}

} // verus!
