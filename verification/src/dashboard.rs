//! The telemetry dashboard's state: the latest archetype listing with its
//! tree of expanded rows, the cursor, search, sort, history and logs, and
//! how key presses change it.
use vstd::prelude::*;

use crate::names::{chars_of, find_in, occurs_in};
use crate::debug_text::{
    compact_preview, debug_cut_ok, debug_fields, debug_text_ok, parse_debug_fields, preview_of,
};
use crate::telemetry::{InputMode, LogFilter, SortMode, Tab, TreeRow};
use std::collections::VecDeque;

verus! {

/// One component of an entity, by name, with its `Debug` text.
pub struct ComponentInfo {
    pub name: String,
    pub debug_value: String,
}

/// One entity of an archetype.
pub struct EntityInfo {
    pub id: u32,
    pub generation: u32,
    pub components: Vec<ComponentInfo>,
}

/// One archetype of the latest snapshot: its size, the names of its
/// component kinds, and its entities when the archetype is expanded.
pub struct ArchetypeInfo {
    pub entity_count: usize,
    pub component_names: Vec<String>,
    pub entities: Option<Vec<EntityInfo>>,
}

/// The lowercase form of a text, as `str::to_lowercase` gives it.
pub uninterp spec fn lowercase(s: Seq<char>) -> Seq<char>;

/// Calls `str::to_lowercase`: the result is the lowercase mapping of the
/// text, named `lowercase` and not spelled out.
#[verifier::external_body]
fn to_lower(s: &str) -> (r: String)
    ensures
        r@ == lowercase(s@),
{
    s.to_lowercase()
}

/// The decimal digit `d`.
pub open spec fn digit_char(d: nat) -> char {
    if d == 0 {
        '0'
    } else if d == 1 {
        '1'
    } else if d == 2 {
        '2'
    } else if d == 3 {
        '3'
    } else if d == 4 {
        '4'
    } else if d == 5 {
        '5'
    } else if d == 6 {
        '6'
    } else if d == 7 {
        '7'
    } else if d == 8 {
        '8'
    } else {
        '9'
    }
}

/// The decimal text of `n`, without leading zeros.
pub open spec fn decimal(n: nat) -> Seq<char>
    decreases n,
{
    if n < 10 {
        seq![digit_char(n)]
    } else {
        decimal(n / 10).push(digit_char(n % 10))
    }
}

fn digit_of(d: u32) -> (r: char)
    requires
        d < 10,
    ensures
        r == digit_char(d as nat),
{
    if d == 0 {
        '0'
    } else if d == 1 {
        '1'
    } else if d == 2 {
        '2'
    } else if d == 3 {
        '3'
    } else if d == 4 {
        '4'
    } else if d == 5 {
        '5'
    } else if d == 6 {
        '6'
    } else if d == 7 {
        '7'
    } else if d == 8 {
        '8'
    } else {
        '9'
    }
}

/// The decimal text of `n`.
pub fn decimal_chars(n: u32) -> (r: Vec<char>)
    ensures
        r@ == decimal(n as nat),
    decreases n,
{
    if n < 10 {
        let mut v = Vec::new();
        v.push(digit_of(n));
        v
    } else {
        let mut v = decimal_chars(n / 10);
        v.push(digit_of(n % 10));
        v
    }
}

/// Text order, character by character (the order of `str` comparison).
pub open spec fn lex_lt(a: Seq<char>, b: Seq<char>) -> bool
    decreases a.len(),
{
    if a.len() == 0 {
        b.len() > 0
    } else if b.len() == 0 {
        false
    } else if a[0] != b[0] {
        (a[0] as u32) < (b[0] as u32)
    } else {
        lex_lt(a.drop_first(), b.drop_first())
    }
}

proof fn lemma_lex_irrefl(a: Seq<char>)
    ensures
        !lex_lt(a, a),
    decreases a.len(),
{
    if a.len() > 0 {
        lemma_lex_irrefl(a.drop_first());
    }
}

proof fn lemma_lex_total(a: Seq<char>, b: Seq<char>)
    ensures
        lex_lt(a, b) || a == b || lex_lt(b, a),
        !(lex_lt(a, b) && lex_lt(b, a)),
        !lex_lt(a, a),
    decreases a.len(),
{
    lemma_lex_irrefl(a);
    if a.len() > 0 && b.len() > 0 {
        lemma_lex_total(a.drop_first(), b.drop_first());
        if a[0] == b[0] && a.drop_first() == b.drop_first() {
            assert(a =~= seq![a[0]] + a.drop_first());
            assert(b =~= seq![b[0]] + b.drop_first());
        }
        if a[0] != b[0] {
            let u = a[0] as u32;
            let w = b[0] as u32;
            vstd::utf8::char_u32_cast(a[0], u);
            vstd::utf8::char_u32_cast(b[0], w);
        }
    } else if a.len() == 0 && b.len() == 0 {
        assert(a =~= b);
    }
}

proof fn lemma_lex_trans(a: Seq<char>, b: Seq<char>, c: Seq<char>)
    requires
        lex_lt(a, b),
        lex_lt(b, c),
    ensures
        lex_lt(a, c),
    decreases a.len(),
{
    if a.len() > 0 && b.len() > 0 && c.len() > 0 {
        if a[0] == b[0] && b[0] == c[0] {
            lemma_lex_trans(a.drop_first(), b.drop_first(), c.drop_first());
        }
    }
}

/// Whether `a` comes before `b` in text order.
fn text_lt(a: &Vec<char>, b: &Vec<char>) -> (r: bool)
    ensures
        r == lex_lt(a@, b@),
{
    let mut i: usize = 0;
    proof {
        assert(a@.skip(0) =~= a@);
        assert(b@.skip(0) =~= b@);
    }
    while i < a.len() && i < b.len() && a[i] == b[i]
        invariant
            i <= a@.len(),
            i <= b@.len(),
            lex_lt(a@, b@) == lex_lt(a@.skip(i as int), b@.skip(i as int)),
        decreases a@.len() - i,
    {
        proof {
            assert(a@.skip(i as int).drop_first() =~= a@.skip(i + 1));
            assert(b@.skip(i as int).drop_first() =~= b@.skip(i + 1));
        }
        i = i + 1;
    }
    proof {
        if i < a@.len() && i < b@.len() {
            assert(a@.skip(i as int)[0] == a@[i as int]);
            assert(b@.skip(i as int)[0] == b@[i as int]);
        }
    }
    if i == a.len() {
        i < b.len()
    } else if i == b.len() {
        false
    } else {
        (a[i] as u32) < (b[i] as u32)
    }
}

/// A log line kept by the dashboard; the time stamp is carried as the bits
/// of the `f32` seconds it was sent with.
pub struct LogEntry {
    pub level: String,
    pub target: String,
    pub message: String,
    pub timestamp_bits: u32,
}

/// An asset reload kept by the dashboard; the time stamp is carried as the
/// bits of the `f32` seconds it was sent with.
pub struct ReloadEvent {
    pub timestamp_bits: u32,
    pub path: String,
    pub kind: String,
    pub success: bool,
    pub error: Option<String>,
}

/// The dashboard's state.
pub struct Dashboard {
    /// Archetypes of the latest snapshot.
    pub archetypes: Vec<ArchetypeInfo>,
    /// Recent frames per second, oldest first.
    pub fps_history: VecDeque<u64>,
    /// Recent frame times in microseconds, oldest first.
    pub delta_history: VecDeque<u64>,
    pub active_tab: Tab,
    pub paused: bool,
    pub connected: bool,
    /// Expanded archetype rows, by archetype index.
    pub expanded_archetypes: Vec<usize>,
    /// Expanded entity rows, by archetype index and entity row.
    pub expanded_entities: Vec<(usize, usize)>,
    /// Expanded component rows, by archetype, entity row and component.
    pub expanded_components: Vec<(usize, usize, usize)>,
    /// Index into the list of selectable rows.
    pub cursor: usize,
    pub sort_mode: SortMode,
    pub input_mode: InputMode,
    pub search_query: String,
    pub active_filter: Option<String>,
    pub log_entries: Vec<LogEntry>,
    pub log_filter: LogFilter,
    pub log_auto_scroll: bool,
    pub log_scroll_offset: usize,
    pub reload_log: Vec<ReloadEvent>,
}

/// One of the listed entities has the search text in its decimal id.
pub open spec fn ids_match(es: Seq<EntityInfo>, lower: Seq<char>) -> bool {
    exists|k: int| 0 <= k < es.len() && #[trigger] occurs_in(decimal(es[k].id as nat), lower)
}

/// One of the component names, lowercased, holds the search text.
pub open spec fn names_match(names: Seq<String>, lower: Seq<char>) -> bool {
    exists|k: int| 0 <= k < names.len() && #[trigger] occurs_in(lowercase(names[k]@), lower)
}

/// The archetype shows the search text, in a component name or in the id
/// of one of its listed entities.
pub open spec fn arch_matches(a: ArchetypeInfo, lower: Seq<char>) -> bool {
    ||| names_match(a.component_names@, lower)
    ||| (a.entities is Some && ids_match(a.entities->0@, lower))
}

/// The text an archetype is sorted by in alphabetical order: its first
/// component name, or nothing.
pub open spec fn name_key(a: ArchetypeInfo) -> Seq<char> {
    if a.component_names@.len() > 0 {
        a.component_names@[0]@
    } else {
        seq![]
    }
}

impl Dashboard {
    /// The archetype at `i` passes the active search filter.
    pub open spec fn shown(&self, i: int) -> bool {
        match self.active_filter {
            None => true,
            Some(f) => arch_matches(self.archetypes@[i], lowercase(f@)),
        }
    }

    /// The archetype at `a` is listed before the one at `b`: by the sort
    /// mode's key, and by position when the keys are equal.
    pub open spec fn sorts_before(&self, a: int, b: int) -> bool {
        let x = self.archetypes@[a];
        let y = self.archetypes@[b];
        match self.sort_mode {
            SortMode::CountDesc => x.entity_count > y.entity_count || (x.entity_count
                == y.entity_count && a < b),
            SortMode::CountAsc => x.entity_count < y.entity_count || (x.entity_count
                == y.entity_count && a < b),
            SortMode::Alphabetical => lex_lt(name_key(x), name_key(y)) || (name_key(x)
                == name_key(y) && a < b),
        }
    }

    proof fn lemma_sort_order(&self, a: int, b: int, c: int)
        ensures
            !self.sorts_before(a, a),
            a != b ==> (self.sorts_before(a, b) || self.sorts_before(b, a)),
            !(self.sorts_before(a, b) && self.sorts_before(b, a)),
            self.sorts_before(a, b) && self.sorts_before(b, c) ==> self.sorts_before(a, c),
    {
        let x = name_key(self.archetypes@[a]);
        let y = name_key(self.archetypes@[b]);
        let z = name_key(self.archetypes@[c]);
        lemma_lex_total(x, y);
        lemma_lex_total(y, z);
        lemma_lex_total(x, z);
        if lex_lt(x, y) && lex_lt(y, z) {
            lemma_lex_trans(x, y, z);
        }
    }

    /// `order` lists the shown archetypes, each once, in sort order.
    pub open spec fn is_listing(&self, order: Seq<usize>) -> bool {
        &&& order.no_duplicates()
        &&& forall|i: usize| #[trigger]
            order.contains(i) <==> (i < self.archetypes@.len() && self.shown(i as int))
        &&& forall|p: int, q: int|
            0 <= p < q < order.len() ==> self.sorts_before(order[p] as int, order[q] as int)
    }

    /// The shown archetypes in sort order.
    pub open spec fn listed(&self) -> Seq<usize> {
        choose|o: Seq<usize>| self.is_listing(o)
    }

    proof fn lemma_sorted_unique(&self, a: Seq<usize>, b: Seq<usize>)
        requires
            a.no_duplicates(),
            b.no_duplicates(),
            forall|x: usize| #![trigger a.contains(x)] #![trigger b.contains(x)] a.contains(x) <==> b.contains(x),
            forall|p: int, q: int|
                0 <= p < q < a.len() ==> self.sorts_before(a[p] as int, a[q] as int),
            forall|p: int, q: int|
                0 <= p < q < b.len() ==> self.sorts_before(b[p] as int, b[q] as int),
        ensures
            a == b,
        decreases a.len(),
    {
        if a.len() == 0 {
            if b.len() > 0 {
                assert(b.contains(b[0]));
            }
            assert(a =~= b);
        } else {
            assert(a.contains(a[0]));
            assert(b.len() > 0);
            assert(b.contains(b[0]));
            if a[0] != b[0] {
                let j = b.index_of(a[0]);
                let i = a.index_of(b[0]);
                assert(b[j] == a[0]);
                assert(a[i] == b[0]);
                assert(self.sorts_before(b[0] as int, b[j] as int));
                assert(self.sorts_before(a[0] as int, a[i] as int));
                self.lemma_sort_order(a[0] as int, b[0] as int, 0);
            }
            let a2 = a.drop_first();
            let b2 = b.drop_first();
            assert forall|x: usize| #[trigger] a2.contains(x) <==> b2.contains(x) by {
                if a2.contains(x) {
                    let i = a2.index_of(x);
                    assert(a[i + 1] == x);
                    assert(a.contains(x));
                    let j = b.index_of(x);
                    assert(j != 0);
                    assert(b2[j - 1] == x);
                }
                if b2.contains(x) {
                    let i = b2.index_of(x);
                    assert(b[i + 1] == x);
                    assert(b.contains(x));
                    let j = a.index_of(x);
                    assert(j != 0);
                    assert(a2[j - 1] == x);
                }
            }
            self.lemma_sorted_unique(a2, b2);
            assert(a =~= seq![a[0]] + a2);
            assert(b =~= seq![b[0]] + b2);
        }
    }

    /// A listing is the listing.
    proof fn lemma_listing_is_listed(&self, o: Seq<usize>)
        requires
            self.is_listing(o),
        ensures
            self.listed() == o,
    {
        let l = self.listed();
        assert(self.is_listing(l));
        self.lemma_sorted_unique(l, o);
    }

    /// The search text lowercased, and whether archetype `i` shows it.
    fn archetype_shown(&self, i: usize, lower: &Vec<char>) -> (r: bool)
        requires
            i < self.archetypes@.len(),
        ensures
            r == arch_matches(self.archetypes@[i as int], lower@),
    {
        let a = &self.archetypes[i];
        let mut k: usize = 0;
        while k < a.component_names.len()
            invariant
                a == self.archetypes@[i as int],
                k <= a.component_names@.len(),
                forall|j: int|
                    0 <= j < k ==> !#[trigger] occurs_in(lowercase(a.component_names@[j]@), lower@),
            decreases a.component_names@.len() - k,
        {
            let low = to_lower(a.component_names[k].as_str());
            let cs = chars_of(low.as_str());
            if find_in(&cs, lower) {
                proof {
                    let aa = self.archetypes@[i as int];
                    assert(aa.component_names@[k as int]@ == a.component_names[k as int]@);
                    assert(occurs_in(lowercase(aa.component_names@[k as int]@), lower@));
                    assert(names_match(aa.component_names@, lower@));
                }
                return true;
            }
            k = k + 1;
        }
        match &a.entities {
            Some(es) => {
                let mut k: usize = 0;
                while k < es.len()
                    invariant
                        i < self.archetypes@.len(),
                        *a == self.archetypes@[i as int],
                        a.entities == Some(*es),
                        k <= es@.len(),
                        forall|j: int|
                            0 <= j < k ==> !#[trigger] occurs_in(decimal(es@[j].id as nat), lower@),
                    decreases es@.len() - k,
                {
                    let ds = decimal_chars(es[k].id);
                    if find_in(&ds, lower) {
                        proof {
                            assert(occurs_in(decimal(es@[k as int].id as nat), lower@));
                            assert(ids_match(es@, lower@));
                            assert(self.archetypes@[i as int].entities == Some(*es));
                        }
                        return true;
                    }
                    k = k + 1;
                }
                false
            },
            None => false,
        }
    }

    /// Whether the archetype at `a` is listed before the one at `b`.
    fn goes_before(&self, a: usize, b: usize) -> (r: bool)
        requires
            a < self.archetypes@.len(),
            b < self.archetypes@.len(),
        ensures
            r == self.sorts_before(a as int, b as int),
    {
        let x = &self.archetypes[a];
        let y = &self.archetypes[b];
        match self.sort_mode {
            SortMode::CountDesc => x.entity_count > y.entity_count || (x.entity_count
                == y.entity_count && a < b),
            SortMode::CountAsc => x.entity_count < y.entity_count || (x.entity_count
                == y.entity_count && a < b),
            SortMode::Alphabetical => {
                let kx = if x.component_names.len() > 0 {
                    chars_of(x.component_names[0].as_str())
                } else {
                    Vec::new()
                };
                let ky = if y.component_names.len() > 0 {
                    chars_of(y.component_names[0].as_str())
                } else {
                    Vec::new()
                };
                proof {
                    assert(kx@ == name_key(*x));
                    assert(ky@ == name_key(*y));
                }
                if text_lt(&kx, &ky) {
                    true
                } else if text_lt(&ky, &kx) {
                    false
                } else {
                    proof {
                        lemma_lex_total(kx@, ky@);
                    }
                    a < b
                }
            },
        }
    }

    /// The indices of the archetypes that pass the search filter, in the
    /// order the sort mode gives (ties in snapshot order).
    pub fn filtered_sorted_archetypes(&self) -> (r: Vec<usize>)
        ensures
            self.is_listing(r@),
            r@ == self.listed(),
    {
        let lower: Option<Vec<char>> = match &self.active_filter {
            Some(f) => {
                let low = to_lower(f.as_str());
                Some(chars_of(low.as_str()))
            },
            None => None,
        };
        let n = self.archetypes.len();
        let mut r: Vec<usize> = Vec::new();
        let mut i: usize = 0;
        while i < n
            invariant
                i <= n == self.archetypes@.len(),
                match lower {
                    Some(l) => self.active_filter is Some && l@ == lowercase(
                        self.active_filter->0@,
                    ),
                    None => self.active_filter is None,
                },
                r@.no_duplicates(),
                forall|x: usize| #[trigger] r@.contains(x) <==> (x < i && self.shown(x as int)),
                forall|p: int, q: int|
                    0 <= p < q < r@.len() ==> self.sorts_before(r@[p] as int, r@[q] as int),
            decreases n - i,
        {
            let keep = match &lower {
                Some(l) => self.archetype_shown(i, l),
                None => true,
            };
            if keep {
                let mut p: usize = 0;
                proof {
                    assert forall|j: int| 0 <= j < r@.len() implies #[trigger] r@[j] < i by {
                        assert(r@.contains(r@[j]));
                    }
                }
                while p < r.len() && !self.goes_before(i, r[p])
                    invariant
                        i < n == self.archetypes@.len(),
                        p <= r@.len(),
                        forall|j: int| 0 <= j < r@.len() ==> #[trigger] r@[j] < i,
                        forall|j: int| 0 <= j < p ==> !self.sorts_before(i as int, #[trigger] r@[j] as int),
                    decreases r@.len() - p,
                {
                    p = p + 1;
                }
                let ghost old_r = r@;
                r.insert(p, i);
                proof {
                    assert(!old_r.contains(i));
                    assert forall|a: int, b: int| 0 <= a < b < r@.len() implies r@[a] != r@[b] by {
                        let oa = if a < p { a } else if a == p { -1 } else { a - 1 };
                        let ob = if b < p { b } else if b == p { -1 } else { b - 1 };
                        if a == p {
                            assert(old_r.contains(r@[b]));
                        } else if b == p {
                            assert(old_r.contains(r@[a]));
                        } else {
                            assert(r@[a] == old_r[oa]);
                            assert(r@[b] == old_r[ob]);
                        }
                    }
                    assert forall|x: usize| #[trigger] r@.contains(x) <==> (x < i + 1 && self.shown(x as int)) by {
                        if r@.contains(x) {
                            let j = r@.index_of(x);
                            if j < p {
                                assert(old_r[j] == r@[j]);
                                assert(old_r.contains(x));
                            } else if j > p {
                                assert(old_r[j - 1] == r@[j]);
                                assert(old_r.contains(x));
                            }
                        }
                        if x < i && self.shown(x as int) {
                            assert(old_r.contains(x));
                            let j = old_r.index_of(x);
                            if j < p {
                                assert(r@[j] == old_r[j]);
                            } else {
                                assert(r@[j + 1] == old_r[j]);
                            }
                        }
                        if x == i {
                            assert(r@[p as int] == i);
                        }
                    }
                    assert forall|a: int, b: int| 0 <= a < b < r@.len() implies self.sorts_before(
                        r@[a] as int,
                        r@[b] as int,
                    ) by {
                        if a < p && b < p {
                            assert(r@[a] == old_r[a] && r@[b] == old_r[b]);
                        } else if a < p && b == p {
                            assert(r@[a] == old_r[a]);
                            self.lemma_sort_order(i as int, old_r[a] as int, 0);
                            assert(old_r[a] != i);
                        } else if a < p && b > p {
                            assert(r@[a] == old_r[a] && r@[b] == old_r[b - 1]);
                        } else if a == p {
                            assert(r@[b] == old_r[b - 1]);
                            if b - 1 > p {
                                self.lemma_sort_order(i as int, old_r[p as int] as int, old_r[b - 1] as int);
                            }
                        } else {
                            assert(r@[a] == old_r[a - 1] && r@[b] == old_r[b - 1]);
                        }
                    }
                }
            } else {
                proof {
                    assert forall|x: usize| #[trigger] r@.contains(x) <==> (x < i + 1 && self.shown(x as int)) by {
                        if x == i {
                            assert(!self.shown(x as int));
                        }
                    }
                }
            }
            i = i + 1;
        }
        proof {
            self.lemma_listing_is_listed(r@);
        }
        r
    }
}

/// Whether `v` holds `x`.
pub fn has_index(v: &Vec<usize>, x: usize) -> (r: bool)
    ensures
        r == v@.contains(x),
{
    let mut i: usize = 0;
    while i < v.len()
        invariant
            i <= v@.len(),
            forall|j: int| 0 <= j < i ==> v@[j] != x,
        decreases v@.len() - i,
    {
        if v[i] == x {
            proof {
                assert(v@[i as int] == x);
            }
            return true;
        }
        i = i + 1;
    }
    false
}

/// Whether `v` holds `x`.
pub fn has_pair(v: &Vec<(usize, usize)>, x: (usize, usize)) -> (r: bool)
    ensures
        r == v@.contains(x),
{
    let mut i: usize = 0;
    while i < v.len()
        invariant
            i <= v@.len(),
            forall|j: int| 0 <= j < i ==> v@[j] != x,
        decreases v@.len() - i,
    {
        let (a, b) = v[i];
        if a == x.0 && b == x.1 {
            proof {
                assert(v@[i as int] == x);
            }
            return true;
        }
        i = i + 1;
    }
    false
}

/// Whether `v` holds `x`.
pub fn has_triple(v: &Vec<(usize, usize, usize)>, x: (usize, usize, usize)) -> (r: bool)
    ensures
        r == v@.contains(x),
{
    let mut i: usize = 0;
    while i < v.len()
        invariant
            i <= v@.len(),
            forall|j: int| 0 <= j < i ==> v@[j] != x,
        decreases v@.len() - i,
    {
        let (a, b, c) = v[i];
        if a == x.0 && b == x.1 && c == x.2 {
            proof {
                assert(v@[i as int] == x);
            }
            return true;
        }
        i = i + 1;
    }
    false
}

/// Number of rows that the cursor can rest on.
pub open spec fn selectable_count(rows: Seq<TreeRow>) -> nat
    decreases rows.len(),
{
    if rows.len() == 0 {
        0
    } else {
        selectable_count(rows.drop_last()) + if rows.last() is Field {
            0nat
        } else {
            1nat
        }
    }
}

/// `sel` lists, in increasing order, the positions of the rows that the
/// cursor can rest on.
pub open spec fn selectable_positions(rows: Seq<TreeRow>, sel: Seq<usize>) -> bool {
    &&& forall|p: int, q: int| 0 <= p < q < sel.len() ==> sel[p] < sel[q]
    &&& forall|i: usize| #[trigger] sel.contains(i) <==> (i < rows.len() && !(rows[i as int] is Field))
    &&& sel.len() == selectable_count(rows)
}

/// The positions of the rows that the cursor can rest on, in order.
pub open spec fn selectable_of(rows: Seq<TreeRow>) -> Seq<usize> {
    choose|sel: Seq<usize>| selectable_positions(rows, sel)
}

/// Two increasing lists of the same numbers are equal.
pub proof fn lemma_increasing_unique(a: Seq<usize>, b: Seq<usize>)
    requires
        forall|p: int, q: int| 0 <= p < q < a.len() ==> a[p] < a[q],
        forall|p: int, q: int| 0 <= p < q < b.len() ==> b[p] < b[q],
        forall|x: usize| #![trigger a.contains(x)] #![trigger b.contains(x)] a.contains(x) <==> b.contains(x),
    ensures
        a == b,
    decreases a.len(),
{
    if a.len() == 0 {
        if b.len() > 0 {
            assert(b.contains(b[0]));
        }
        assert(a =~= b);
    } else {
        assert(a.contains(a[0]));
        assert(b.contains(b[0]));
        if a[0] != b[0] {
            let j = b.index_of(a[0]);
            let i = a.index_of(b[0]);
            assert(b[j] == a[0] && a[i] == b[0]);
        }
        let a2 = a.drop_first();
        let b2 = b.drop_first();
        assert forall|x: usize| #![trigger a2.contains(x)] #![trigger b2.contains(x)] a2.contains(x) <==> b2.contains(x) by {
            if a2.contains(x) {
                let i = a2.index_of(x);
                assert(a[i + 1] == x);
                assert(a.contains(x));
                let j = b.index_of(x);
                assert(b[j] == x);
                assert(j != 0);
                assert(b2[j - 1] == x);
            }
            if b2.contains(x) {
                let i = b2.index_of(x);
                assert(b[i + 1] == x);
                assert(b.contains(x));
                let j = a.index_of(x);
                assert(a[j] == x);
                assert(j != 0);
                assert(a2[j - 1] == x);
            }
        }
        lemma_increasing_unique(a2, b2);
        assert(a =~= seq![a[0]] + a2);
        assert(b =~= seq![b[0]] + b2);
    }
}

/// Positions that meet `selectable_positions` are the positions.
pub proof fn lemma_selectable_of(rows: Seq<TreeRow>, sel: Seq<usize>)
    requires
        selectable_positions(rows, sel),
    ensures
        selectable_of(rows) == sel,
{
    let s2 = selectable_of(rows);
    assert(selectable_positions(rows, s2));
    lemma_increasing_unique(s2, sel);
}

/// Append a row, and its position to `sel` when the cursor can rest on it.
fn push_row(rows: &mut Vec<TreeRow>, sel: &mut Vec<usize>, row: TreeRow)
    requires
        selectable_positions(old(rows)@, old(sel)@),
    ensures
        final(rows)@ == old(rows)@.push(row),
        selectable_positions(final(rows)@, final(sel)@),
{
    let n = rows.len();
    let ghost os = sel@;
    if row.is_selectable() {
        sel.push(n);
        proof {
            assert forall|p: int| 0 <= p < os.len() implies os[p] < n by {
                assert(os.contains(os[p]));
            }
        }
    }
    rows.push(row);
    proof {
        assert(rows@.drop_last() =~= old(rows)@);
        assert forall|i: usize| #[trigger] sel@.contains(i) <==> (i < rows@.len() && !(rows@[i as int] is Field)) by {
            crate::world::lemma_push_contains(os, n, i);
            if i < n {
                assert(rows@[i as int] == old(rows)@[i as int]);
            }
        }
    }
}

/// The field lines of an expanded component.
pub open spec fn field_rows(a: usize, r: usize, c: usize, n: nat) -> Seq<TreeRow> {
    Seq::new(n, |f: int| TreeRow::Field { arch_idx: a, entity_row: r, comp_idx: c, field_idx: f as usize })
}

/// The text of a listed component, when `(a, k, c)` names one: component
/// `c` of entity row `k` of archetype `a`.
pub open spec fn component_text(archs: Seq<ArchetypeInfo>, x: (usize, usize, usize)) -> Option<Seq<char>> {
    let (a, k, c) = x;
    if a < archs.len() && archs[a as int].entities is Some && k < archs[a as int].entities->0@.len() && c
        < archs[a as int].entities->0@[k as int].components@.len() {
        Some(archs[a as int].entities->0@[k as int].components@[c as int].debug_value@)
    } else {
        None
    }
}

/// The text of every expanded component that these archetypes list can be
/// read for fields.
pub open spec fn archetype_texts_ok(archs: Seq<ArchetypeInfo>, expanded: Seq<(usize, usize, usize)>) -> bool {
    forall|x: (usize, usize, usize)|
        #[trigger] expanded.contains(x) && component_text(archs, x) is Some ==> text_ok(
            component_text(archs, x)->0,
        )
}

/// The text of a component is one the field reader can cut.
pub open spec fn text_ok(s: Seq<char>) -> bool {
    s.len() < 0x7fff_ffff && debug_cut_ok(s)
}

/// How a component row of the tree shows.
pub enum ComponentLine {
    /// Expanded: its fields follow on rows of their own.
    Open,
    /// Collapsed, with a preview of its value.
    Preview(String),
    /// A value without fields, shown whole.
    Value,
}

/// Characters of a component's value shown in its preview.
pub const PREVIEW_LEN: usize = 60;

/// The arrow before a row that opens: pointing down when it is open.
pub fn tree_arrow(expanded: bool) -> (r: char)
    ensures
        r == (if expanded {
            '\u{25BC}'
        } else {
            '\u{25B6}'
        }),
{
    if expanded {
        '\u{25BC}'
    } else {
        '\u{25B6}'
    }
}

/// The word after an archetype's entity count.
pub fn entity_word(count: usize) -> (r: &'static str)
    ensures
        r@ == (if count == 1 {
            "entity"@
        } else {
            "entities"@
        }),
{
    if count == 1 {
        "entity"
    } else {
        "entities"
    }
}

impl Dashboard {
    /// How the row of component `c` of entity row `e` of archetype `a`
    /// shows: open when expanded and the value has fields, a preview when
    /// collapsed with fields, the whole value when it has none.
    pub fn component_line(&self, a: usize, e: usize, c: usize) -> (r: ComponentLine)
        requires
            a < self.archetypes@.len(),
            self.archetypes@[a as int].entities is Some,
            e < self.archetypes@[a as int].entities->0@.len(),
            c < self.archetypes@[a as int].entities->0@[e as int].components@.len(),
            text_ok(self.archetypes@[a as int].entities->0@[e as int].components@[c as int].debug_value@),
        ensures
            ({
                let v = self.archetypes@[a as int].entities->0@[e as int].components@[c as int].debug_value@;
                let has_fields = debug_fields(v).len() > 0;
                match r {
                    ComponentLine::Open => has_fields && self.expanded_components@.contains((a, e, c)),
                    ComponentLine::Preview(p) => has_fields && !self.expanded_components@.contains(
                        (a, e, c),
                    ) && p@ == preview_of(v, PREVIEW_LEN as nat),
                    ComponentLine::Value => !has_fields,
                }
            }),
    {
        let ents = self.archetypes[a].entities.as_ref().unwrap();
        let comp = &ents[e].components[c];
        let fields = parse_debug_fields(comp.debug_value.as_str());
        if fields.len() == 0 {
            ComponentLine::Value
        } else if has_triple(&self.expanded_components, (a, e, c)) {
            ComponentLine::Open
        } else {
            ComponentLine::Preview(compact_preview(comp.debug_value.as_str(), PREVIEW_LEN))
        }
    }

    /// Rows of the first `n` components of entity row `r` of archetype `a`.
    pub open spec fn comp_rows(&self, a: usize, r: usize, comps: Seq<ComponentInfo>, n: int) -> Seq<
        TreeRow,
    >
        decreases n,
    {
        if n <= 0 {
            seq![]
        } else {
            let c = (n - 1) as usize;
            self.comp_rows(a, r, comps, n - 1) + seq![
                TreeRow::Component { arch_idx: a, entity_row: r, comp_idx: c },
            ] + if self.expanded_components@.contains((a, r, c)) {
                field_rows(a, r, c, debug_fields(comps[n - 1].debug_value@).len())
            } else {
                seq![]
            }
        }
    }

    /// Rows of the first `n` entities of archetype `a`.
    pub open spec fn entity_rows(&self, a: usize, es: Seq<EntityInfo>, n: int) -> Seq<TreeRow>
        decreases n,
    {
        if n <= 0 {
            seq![]
        } else {
            let r = (n - 1) as usize;
            self.entity_rows(a, es, n - 1) + seq![TreeRow::Entity { arch_idx: a, entity_row: r }]
                + if self.expanded_entities@.contains((a, r)) {
                self.comp_rows(a, r, es[n - 1].components@, es[n - 1].components@.len() as int)
            } else {
                seq![]
            }
        }
    }

    /// Rows of archetype `a`: its own, then those of its entities when it
    /// is expanded and they are listed.
    pub open spec fn arch_rows(&self, a: usize) -> Seq<TreeRow> {
        seq![TreeRow::Archetype { arch_idx: a }] + if self.expanded_archetypes@.contains(a)
            && self.archetypes@[a as int].entities is Some {
            let es = self.archetypes@[a as int].entities->0@;
            self.entity_rows(a, es, es.len() as int)
        } else {
            seq![]
        }
    }

    /// Rows of the archetypes of `order`, one after another.
    pub open spec fn rows_of(&self, order: Seq<usize>) -> Seq<TreeRow>
        decreases order.len(),
    {
        if order.len() == 0 {
            seq![]
        } else {
            self.rows_of(order.drop_last()) + self.arch_rows(order.last())
        }
    }

    /// The flattened tree.
    pub open spec fn tree_rows(&self) -> Seq<TreeRow> {
        self.rows_of(self.listed())
    }

    /// Every component text can be read for fields.
    pub open spec fn texts_ok(&self) -> bool {
        archetype_texts_ok(self.archetypes@, self.expanded_components@)
    }

    /// The flattened tree, and the positions of its selectable rows.
    pub fn build_tree_rows(&self) -> (r: (Vec<TreeRow>, Vec<usize>))
        requires
            self.texts_ok(),
        ensures
            r.0@ == self.tree_rows(),
            selectable_positions(r.0@, r.1@),
            r.1@ == selectable_of(r.0@),
            self.is_listing(self.listed()),
    {
        let order = self.filtered_sorted_archetypes();
        let mut rows: Vec<TreeRow> = Vec::new();
        let mut sel: Vec<usize> = Vec::new();
        let mut k: usize = 0;
        proof {
            assert(order@.take(0) =~= Seq::<usize>::empty());
        }
        while k < order.len()
            invariant
                self.texts_ok(),
                order@ == self.listed(),
                self.is_listing(order@),
                k <= order@.len(),
                rows@ == self.rows_of(order@.take(k as int)),
                selectable_positions(rows@, sel@),
            decreases order@.len() - k,
        {
            assert(order@.contains(order@[k as int]));
            let a = order[k];
            let ghost base = rows@;
            proof {
                assert(order@.take(k + 1).drop_last() =~= order@.take(k as int));
            }
            push_row(&mut rows, &mut sel, TreeRow::Archetype { arch_idx: a });
            if has_index(&self.expanded_archetypes, a) {
                match &self.archetypes[a].entities {
                    Some(es) => {
                        let ghost base2 = rows@;
                        let mut e: usize = 0;
                        while e < es.len()
                            invariant
                                self.texts_ok(),
                                a < self.archetypes@.len(),
                                self.archetypes@[a as int].entities == Some(*es),
                                self.expanded_archetypes@.contains(a),
                                e <= es@.len(),
                                rows@ == base2 + self.entity_rows(a, es@, e as int),
                                selectable_positions(rows@, sel@),
                            decreases es@.len() - e,
                        {
                            let ghost base3 = rows@;
                            push_row(&mut rows, &mut sel, TreeRow::Entity { arch_idx: a, entity_row: e });
                            if has_pair(&self.expanded_entities, (a, e)) {
                                let comps = &es[e].components;
                                let ghost base4 = rows@;
                                let mut c: usize = 0;
                                while c < comps.len()
                                    invariant
                                        self.texts_ok(),
                                        a < self.archetypes@.len(),
                                        self.archetypes@[a as int].entities == Some(*es),
                                        e < es@.len(),
                                        *comps == es@[e as int].components,
                                        c <= comps@.len(),
                                        rows@ == base4 + self.comp_rows(a, e, comps@, c as int),
                                        selectable_positions(rows@, sel@),
                                    decreases comps@.len() - c,
                                {
                                    let ghost base5 = rows@;
                                    push_row(
                                        &mut rows,
                                        &mut sel,
                                        TreeRow::Component { arch_idx: a, entity_row: e, comp_idx: c },
                                    );
                                    if has_triple(&self.expanded_components, (a, e, c)) {
                                        proof {
                                            assert(self.expanded_components@.contains((a, e, c)));
                                            assert(component_text(self.archetypes@, (a, e, c)) is Some);
                                            assert(text_ok(
                                                self.archetypes@[a as int].entities->0@[e as int].components@[c as int].debug_value@,
                                            ));
                                        }
                                        let fields = parse_debug_fields(comps[c].debug_value.as_str());
                                        let ghost base6 = rows@;
                                        let mut f: usize = 0;
                                        while f < fields.len()
                                            invariant
                                                f <= fields@.len(),
                                                rows@ == base6 + field_rows(a, e, c, f as nat),
                                                selectable_positions(rows@, sel@),
                                            decreases fields@.len() - f,
                                        {
                                            push_row(
                                                &mut rows,
                                                &mut sel,
                                                TreeRow::Field { arch_idx: a, entity_row: e, comp_idx: c, field_idx: f },
                                            );
                                            f = f + 1;
                                            proof {
                                                assert(rows@ =~= base6 + field_rows(a, e, c, f as nat));
                                            }
                                        }
                                    }
                                    c = c + 1;
                                    proof {
                                        assert(rows@ =~= base4 + self.comp_rows(a, e, comps@, c as int));
                                    }
                                }
                            }
                            e = e + 1;
                            proof {
                                assert(rows@ =~= base2 + self.entity_rows(a, es@, e as int));
                            }
                        }
                    },
                    None => {},
                }
            }
            k = k + 1;
            proof {
                assert(rows@ =~= self.rows_of(order@.take(k as int)));
            }
        }
        proof {
            assert(order@.take(k as int) =~= order@);
            lemma_selectable_of(rows@, sel@);
        }
        (rows, sel)
    }
}

/// How many frames of history are kept.
pub const HISTORY_CAP: usize = 1200;

/// How many log lines are kept.
pub const LOG_CAP: usize = 2000;

/// How many reload events are kept.
pub const RELOAD_LOG_CAP: usize = 500;

/// `s` without its oldest entries beyond the last `cap`.
pub open spec fn keep_last<T>(s: Seq<T>, cap: nat) -> Seq<T> {
    if s.len() > cap {
        s.skip(s.len() - cap)
    } else {
        s
    }
}

/// A history after a new sample: the oldest sample leaves first when the
/// history is full.
pub open spec fn history_after(h: Seq<u64>, x: u64) -> Seq<u64> {
    if h.len() >= HISTORY_CAP {
        h.drop_first().push(x)
    } else {
        h.push(x)
    }
}

/// The number of entries at the given level.
pub open spec fn level_count(entries: Seq<LogEntry>, level: Seq<char>) -> nat
    decreases entries.len(),
{
    if entries.len() == 0 {
        0
    } else {
        level_count(entries.drop_last(), level) + if entries.last().level@ == level {
            1nat
        } else {
            0nat
        }
    }
}

/// The entries that the filter shows, in order.
pub open spec fn passing(entries: Seq<LogEntry>, f: LogFilter) -> Seq<LogEntry>
    decreases entries.len(),
{
    if entries.len() == 0 {
        seq![]
    } else {
        let rest = passing(entries.drop_last(), f);
        if f.spec_passes(entries.last().level@) {
            rest.push(entries.last())
        } else {
            rest
        }
    }
}

/// Add a sample to a history, dropping the oldest one when it is full.
fn push_sample(h: &mut VecDeque<u64>, x: u64)
    ensures
        final(h)@ == history_after(old(h)@, x),
{
    if h.len() >= HISTORY_CAP {
        let _ = h.pop_front();
        proof {
            assert(old(h)@.drop_first() =~= old(h)@.subrange(1, old(h)@.len() as int));
        }
    }
    h.push_back(x);
}

/// Append `more` to `v` and keep only the last `cap` entries.
fn append_capped<T>(v: &mut Vec<T>, more: Vec<T>, cap: usize)
    ensures
        final(v)@ == keep_last(old(v)@ + more@, cap as nat),
{
    let mut more = more;
    v.append(&mut more);
    if v.len() > cap {
        let excess = v.len() - cap;
        let tail = v.split_off(excess);
        *v = tail;
    }
}

impl Dashboard {
    /// A fresh dashboard: nothing received, the overview tab, count order,
    /// info logs and up.
    pub fn new() -> (r: Self)
        ensures
            r.archetypes@.len() == 0,
            r.fps_history@.len() == 0,
            r.delta_history@.len() == 0,
            r.active_tab == Tab::Overview,
            !r.paused,
            !r.connected,
            r.expanded_archetypes@.len() == 0,
            r.expanded_entities@.len() == 0,
            r.expanded_components@.len() == 0,
            r.cursor == 0,
            r.sort_mode == SortMode::CountDesc,
            r.input_mode == InputMode::Normal,
            r.search_query@.len() == 0,
            r.active_filter is None,
            r.log_entries@.len() == 0,
            r.log_filter == LogFilter::Info,
            r.log_auto_scroll,
            r.log_scroll_offset == 0,
            r.reload_log@.len() == 0,
    {
        Dashboard {
            archetypes: Vec::new(),
            fps_history: VecDeque::new(),
            delta_history: VecDeque::new(),
            active_tab: Tab::Overview,
            paused: false,
            connected: false,
            expanded_archetypes: Vec::new(),
            expanded_entities: Vec::new(),
            expanded_components: Vec::new(),
            cursor: 0,
            sort_mode: SortMode::CountDesc,
            input_mode: InputMode::Normal,
            search_query: String::new(),
            active_filter: None,
            log_entries: Vec::new(),
            log_filter: LogFilter::Info,
            log_auto_scroll: true,
            log_scroll_offset: 0,
            reload_log: Vec::new(),
        }
    }

    /// The cursor after the rows changed: moved onto the last selectable
    /// row when it is past the end (and there is one).
    pub open spec fn clamped_cursor(cursor: usize, count: nat) -> usize {
        if count > 0 && cursor >= count {
            (count - 1) as usize
        } else {
            cursor
        }
    }

    /// Dashboards that agree on the archetypes, the expanded rows, the
    /// filter and the sort mode have the same tree.
    pub proof fn lemma_same_tree(a: Dashboard, b: Dashboard)
        requires
            a.archetypes == b.archetypes,
            a.expanded_archetypes == b.expanded_archetypes,
            a.expanded_entities == b.expanded_entities,
            a.expanded_components == b.expanded_components,
            a.active_filter == b.active_filter,
            a.sort_mode == b.sort_mode,
            a.is_listing(a.listed()),
        ensures
            a.listed() == b.listed(),
            a.tree_rows() == b.tree_rows(),
    {
        assert forall|i: int| a.shown(i) == b.shown(i) by {}
        assert forall|p: int, q: int| a.sorts_before(p, q) == b.sorts_before(p, q) by {}
        assert forall|o: Seq<usize>| a.is_listing(o) == b.is_listing(o) by {
            assert(forall|p: int, q: int| a.sorts_before(p, q) == b.sorts_before(p, q));
            assert(forall|i: int| a.shown(i) == b.shown(i));
        }
        b.lemma_listing_is_listed(a.listed());
        Self::lemma_same_rows(a, b, a.listed());
    }

    proof fn lemma_same_rows(a: Dashboard, b: Dashboard, o: Seq<usize>)
        requires
            a.archetypes == b.archetypes,
            a.expanded_archetypes == b.expanded_archetypes,
            a.expanded_entities == b.expanded_entities,
            a.expanded_components == b.expanded_components,
        ensures
            a.rows_of(o) == b.rows_of(o),
        decreases o.len(),
    {
        if o.len() > 0 {
            Self::lemma_same_rows(a, b, o.drop_last());
            let x = o.last();
            if a.expanded_archetypes@.contains(x) && a.archetypes@[x as int].entities is Some {
                let es = a.archetypes@[x as int].entities->0@;
                Self::lemma_same_entity_rows(a, b, x, es, es.len() as int);
            }
        }
    }

    proof fn lemma_same_entity_rows(a: Dashboard, b: Dashboard, x: usize, es: Seq<EntityInfo>, n: int)
        requires
            a.expanded_entities == b.expanded_entities,
            a.expanded_components == b.expanded_components,
        ensures
            a.entity_rows(x, es, n) == b.entity_rows(x, es, n),
        decreases n,
    {
        if n > 0 {
            Self::lemma_same_entity_rows(a, b, x, es, n - 1);
            Self::lemma_same_comp_rows(
                a,
                b,
                x,
                (n - 1) as usize,
                es[n - 1].components@,
                es[n - 1].components@.len() as int,
            );
        }
    }

    proof fn lemma_same_comp_rows(
        a: Dashboard,
        b: Dashboard,
        x: usize,
        r: usize,
        comps: Seq<ComponentInfo>,
        n: int,
    )
        requires
            a.expanded_components == b.expanded_components,
        ensures
            a.comp_rows(x, r, comps, n) == b.comp_rows(x, r, comps, n),
        decreases n,
    {
        if n > 0 {
            Self::lemma_same_comp_rows(a, b, x, r, comps, n - 1);
        }
    }

    /// Move the cursor onto the last selectable row if it is past the end.
    fn clamp_cursor(&mut self)
        requires
            old(self).texts_ok(),
        ensures
            old(self).is_listing(old(self).listed()),
            final(self).cursor == Self::clamped_cursor(
                old(self).cursor,
                selectable_count(old(self).tree_rows()),
            ),
            final(self).archetypes == old(self).archetypes,
            final(self).expanded_archetypes == old(self).expanded_archetypes,
            final(self).expanded_entities == old(self).expanded_entities,
            final(self).expanded_components == old(self).expanded_components,
            final(self).active_filter == old(self).active_filter,
            final(self).sort_mode == old(self).sort_mode,
            final(self).search_query == old(self).search_query,
            final(self).input_mode == old(self).input_mode,
            final(self).active_tab == old(self).active_tab,
            final(self).paused == old(self).paused,
            final(self).connected == old(self).connected,
            final(self).fps_history == old(self).fps_history,
            final(self).delta_history == old(self).delta_history,
            final(self).log_entries == old(self).log_entries,
            final(self).log_filter == old(self).log_filter,
            final(self).log_auto_scroll == old(self).log_auto_scroll,
            final(self).log_scroll_offset == old(self).log_scroll_offset,
            final(self).reload_log == old(self).reload_log,
    {
        let (_, selectable) = self.build_tree_rows();
        if selectable.len() > 0 && self.cursor >= selectable.len() {
            self.cursor = selectable.len() - 1;
        }
    }

    /// Take in a new snapshot, unless paused: record the frame rate and
    /// frame time samples, keep the new log lines and reload events (only
    /// the most recent ones), show the new archetypes and keep the cursor on
    /// a row. Returns whether the snapshot was taken.
    pub fn push_snapshot(
        &mut self,
        fps: u64,
        delta_us: u64,
        archetypes: Vec<ArchetypeInfo>,
        logs: Vec<LogEntry>,
        reloads: Option<Vec<ReloadEvent>>,
    ) -> (taken: bool)
        requires
            !old(self).paused ==> archetype_texts_ok(archetypes@, old(self).expanded_components@),
        ensures
            taken == !old(self).paused,
            !taken ==> *final(self) == *old(self),
            taken ==> {
                &&& final(self).fps_history@ == history_after(old(self).fps_history@, fps)
                &&& final(self).delta_history@ == history_after(old(self).delta_history@, delta_us)
                &&& final(self).log_entries@ == keep_last(old(self).log_entries@ + logs@, LOG_CAP as nat)
                &&& final(self).reload_log@ == match reloads {
                    Some(ev) => keep_last(old(self).reload_log@ + ev@, RELOAD_LOG_CAP as nat),
                    None => old(self).reload_log@,
                }
                &&& final(self).archetypes == archetypes
                &&& final(self).connected
                &&& final(self).cursor == Self::clamped_cursor(
                    old(self).cursor,
                    selectable_count(final(self).tree_rows()),
                )
                &&& final(self).expanded_archetypes == old(self).expanded_archetypes
                &&& final(self).expanded_entities == old(self).expanded_entities
                &&& final(self).expanded_components == old(self).expanded_components
                &&& final(self).active_filter == old(self).active_filter
                &&& final(self).sort_mode == old(self).sort_mode
                &&& final(self).active_tab == old(self).active_tab
                &&& final(self).input_mode == old(self).input_mode
                &&& final(self).search_query == old(self).search_query
                &&& final(self).log_filter == old(self).log_filter
                &&& final(self).log_auto_scroll == old(self).log_auto_scroll
                &&& final(self).log_scroll_offset == old(self).log_scroll_offset
                &&& !final(self).paused
            },
    {
        if self.paused {
            return false;
        }
        push_sample(&mut self.fps_history, fps);
        push_sample(&mut self.delta_history, delta_us);
        append_capped(&mut self.log_entries, logs, LOG_CAP);
        match reloads {
            Some(ev) => append_capped(&mut self.reload_log, ev, RELOAD_LOG_CAP),
            None => {},
        }
        self.archetypes = archetypes;
        self.connected = true;
        let ghost mid = *self;
        self.clamp_cursor();
        proof {
            Self::lemma_same_tree(mid, *self);
        }
        true
    }

    /// Number of log lines at each level: trace, debug, info, warn, error.
    pub fn log_counts(&self) -> (r: (usize, usize, usize, usize, usize))
        ensures
            r.0 == level_count(self.log_entries@, "TRACE"@),
            r.1 == level_count(self.log_entries@, "DEBUG"@),
            r.2 == level_count(self.log_entries@, "INFO"@),
            r.3 == level_count(self.log_entries@, "WARN"@),
            r.4 == level_count(self.log_entries@, "ERROR"@),
    {
        let mut t: usize = 0;
        let mut d: usize = 0;
        let mut i: usize = 0;
        let mut w: usize = 0;
        let mut e: usize = 0;
        let mut k: usize = 0;
        while k < self.log_entries.len()
            invariant
                k <= self.log_entries@.len(),
                t == level_count(self.log_entries@.take(k as int), "TRACE"@),
                d == level_count(self.log_entries@.take(k as int), "DEBUG"@),
                i == level_count(self.log_entries@.take(k as int), "INFO"@),
                w == level_count(self.log_entries@.take(k as int), "WARN"@),
                e == level_count(self.log_entries@.take(k as int), "ERROR"@),
                t <= k && d <= k && i <= k && w <= k && e <= k,
            decreases self.log_entries@.len() - k,
        {
            let lvl = self.log_entries[k].level.as_str();
            proof {
                assert(self.log_entries@.take(k + 1).drop_last() =~= self.log_entries@.take(k as int));
                reveal_strlit("TRACE");
                reveal_strlit("DEBUG");
                reveal_strlit("INFO");
                reveal_strlit("WARN");
                reveal_strlit("ERROR");
                assert("TRACE"@[0] != "DEBUG"@[0]);
                assert("TRACE"@[0] != "ERROR"@[0]);
                assert("DEBUG"@[0] != "ERROR"@[0]);
                assert("INFO"@[0] != "WARN"@[0]);
            }
            if crate::telemetry::same_text(lvl, "TRACE") {
                t = t + 1;
            } else if crate::telemetry::same_text(lvl, "DEBUG") {
                d = d + 1;
            } else if crate::telemetry::same_text(lvl, "INFO") {
                i = i + 1;
            } else if crate::telemetry::same_text(lvl, "WARN") {
                w = w + 1;
            } else if crate::telemetry::same_text(lvl, "ERROR") {
                e = e + 1;
            }
            k = k + 1;
        }
        proof {
            assert(self.log_entries@.take(k as int) =~= self.log_entries@);
        }
        (t, d, i, w, e)
    }

    /// The log lines that the level filter shows, in order.
    pub fn filtered_logs(&self) -> (r: Vec<&LogEntry>)
        ensures
            r@.len() == passing(self.log_entries@, self.log_filter).len(),
            forall|j: int| 0 <= j < r@.len() ==> *r@[j] == passing(self.log_entries@, self.log_filter)[j],
    {
        let mut r: Vec<&LogEntry> = Vec::new();
        let mut k: usize = 0;
        while k < self.log_entries.len()
            invariant
                k <= self.log_entries@.len(),
                r@.len() == passing(self.log_entries@.take(k as int), self.log_filter).len(),
                forall|j: int|
                    0 <= j < r@.len() ==> *r@[j] == passing(self.log_entries@.take(k as int), self.log_filter)[j],
            decreases self.log_entries@.len() - k,
        {
            proof {
                assert(self.log_entries@.take(k + 1).drop_last() =~= self.log_entries@.take(k as int));
            }
            let entry = &self.log_entries[k];
            if self.log_filter.passes(entry.level.as_str()) {
                r.push(entry);
            }
            k = k + 1;
        }
        proof {
            assert(self.log_entries@.take(k as int) =~= self.log_entries@);
        }
        r
    }
}

/// A key as the dashboard reads it.
#[derive(Clone, Copy, Debug, PartialEq, Eq, Structural)]
pub enum KeyCode {
    Char(char),
    Esc,
    Enter,
    Backspace,
    Tab,
    Up,
    Down,
    Left,
    Right,
    Other,
}

/// A key press with the modifiers the dashboard looks at.
#[derive(Clone, Copy, Debug, PartialEq, Eq, Structural)]
pub struct KeyPress {
    pub code: KeyCode,
    pub ctrl: bool,
    pub shift: bool,
}

/// What the dashboard asks of its host after a key press.
#[derive(Clone, Copy, Debug, PartialEq, Eq, Structural)]
pub enum KeyAction {
    /// Nothing.
    Continue,
    /// Leave the dashboard.
    Quit,
    /// Send the game the list of expanded archetypes.
    SendExpanded,
}

/// Removes the last character of a string, if any (`String::pop`).
#[verifier::external_body]
fn pop_char(s: &mut String)
    ensures
        final(s)@ == if old(s)@.len() > 0 {
            old(s)@.drop_last()
        } else {
            old(s)@
        },
{
    s.pop();
}

/// `v` without `a`.
fn retain_indices(v: &mut Vec<usize>, a: usize)
    ensures
        forall|x: usize| #[trigger] final(v)@.contains(x) <==> (old(v)@.contains(x) && x != a),
{
    let mut out: Vec<usize> = Vec::new();
    let mut i: usize = 0;
    while i < v.len()
        invariant
            i <= v@.len(),
            v@ == old(v)@,
            forall|x: usize| #[trigger] out@.contains(x) <==> (v@.take(i as int).contains(x) && x != a),
        decreases v@.len() - i,
    {
        let x = v[i];
        proof {
            assert(v@.take(i + 1) =~= v@.take(i as int).push(x));
            assert forall|y: usize| v@.take(i + 1).contains(y) == (v@.take(i as int).contains(y) || y == x) by {
                crate::world::lemma_push_contains(v@.take(i as int), x, y);
            }
        }
        let ghost old_out = out@;
        if x != a {
            out.push(x);
        }
        proof {
            assert forall|y: usize| #[trigger] out@.contains(y) <==> (v@.take(i + 1).contains(y) && y != a) by {
                assert(old_out.contains(y) <==> (v@.take(i as int).contains(y) && y != a));
                crate::world::lemma_push_contains(v@.take(i as int), x, y);
                crate::world::lemma_push_contains(old_out, x, y);
            }
        }
        i = i + 1;
    }
    proof {
        assert(v@.take(i as int) =~= v@);
    }
    *v = out;
}

/// Whether an entity key lies under archetype `a` (and entity row `e`, when
/// given).
pub open spec fn pair_under(x: (usize, usize), a: usize, e: Option<usize>) -> bool {
    x.0 == a && match e {
        Some(r) => x.1 == r,
        None => true,
    }
}

/// `v` without the keys under `a` (and `e`).
fn retain_pairs(v: &mut Vec<(usize, usize)>, a: usize, e: Option<usize>)
    ensures
        forall|x: (usize, usize)| #[trigger] final(v)@.contains(x) <==> (old(v)@.contains(x) && !pair_under(x, a, e)),
{
    let mut out: Vec<(usize, usize)> = Vec::new();
    let mut i: usize = 0;
    while i < v.len()
        invariant
            i <= v@.len(),
            v@ == old(v)@,
            forall|x: (usize, usize)| #[trigger] out@.contains(x) <==> (v@.take(i as int).contains(x) && !pair_under(x, a, e)),
        decreases v@.len() - i,
    {
        let x = v[i];
        proof {
            assert(v@.take(i + 1) =~= v@.take(i as int).push(x));
            assert forall|y: (usize, usize)| v@.take(i + 1).contains(y) == (v@.take(i as int).contains(y) || y == x) by {
                crate::world::lemma_push_contains(v@.take(i as int), x, y);
            }
        }
        let under = x.0 == a && match e {
            Some(r) => x.1 == r,
            None => true,
        };
        let ghost old_out = out@;
        if !under {
            out.push(x);
        }
        proof {
            assert forall|y: (usize, usize)| #[trigger] out@.contains(y) <==> (v@.take(i + 1).contains(y) && !pair_under(y, a, e)) by {
                assert(old_out.contains(y) <==> (v@.take(i as int).contains(y) && !pair_under(y, a, e)));
                crate::world::lemma_push_contains(v@.take(i as int), x, y);
                crate::world::lemma_push_contains(old_out, x, y);
            }
        }
        i = i + 1;
    }
    proof {
        assert(v@.take(i as int) =~= v@);
    }
    *v = out;
}

/// Whether a component key lies under archetype `a` (and entity row `e`,
/// and component `c`, when given).
pub open spec fn triple_under(x: (usize, usize, usize), a: usize, e: Option<usize>, c: Option<usize>) -> bool {
    &&& x.0 == a
    &&& match e {
        Some(r) => x.1 == r,
        None => true,
    }
    &&& match c {
        Some(k) => x.2 == k,
        None => true,
    }
}

/// `v` without the keys under `a` (and `e`, and `c`).
fn retain_triples(v: &mut Vec<(usize, usize, usize)>, a: usize, e: Option<usize>, c: Option<usize>)
    ensures
        forall|x: (usize, usize, usize)| #[trigger] final(v)@.contains(x) <==> (old(v)@.contains(x) && !triple_under(x, a, e, c)),
{
    let mut out: Vec<(usize, usize, usize)> = Vec::new();
    let mut i: usize = 0;
    while i < v.len()
        invariant
            i <= v@.len(),
            v@ == old(v)@,
            forall|x: (usize, usize, usize)| #[trigger] out@.contains(x) <==> (v@.take(i as int).contains(x) && !triple_under(x, a, e, c)),
        decreases v@.len() - i,
    {
        let x = v[i];
        proof {
            assert(v@.take(i + 1) =~= v@.take(i as int).push(x));
            assert forall|y: (usize, usize, usize)| v@.take(i + 1).contains(y) == (v@.take(i as int).contains(y) || y == x) by {
                crate::world::lemma_push_contains(v@.take(i as int), x, y);
            }
        }
        let under = x.0 == a && match e {
            Some(r) => x.1 == r,
            None => true,
        } && match c {
            Some(k) => x.2 == k,
            None => true,
        };
        let ghost old_out = out@;
        if !under {
            out.push(x);
        }
        proof {
            assert forall|y: (usize, usize, usize)| #[trigger] out@.contains(y) <==> (v@.take(i + 1).contains(y) && !triple_under(y, a, e, c)) by {
                assert(old_out.contains(y) <==> (v@.take(i as int).contains(y) && !triple_under(y, a, e, c)));
                crate::world::lemma_push_contains(v@.take(i as int), x, y);
                crate::world::lemma_push_contains(old_out, x, y);
            }
        }
        i = i + 1;
    }
    proof {
        assert(v@.take(i as int) =~= v@);
    }
    *v = out;
}

impl Dashboard {
    /// The cursor is on a selectable row, or there is none.
    pub open spec fn cursor_ok(&self) -> bool {
        let n = selectable_count(self.tree_rows());
        n == 0 || self.cursor < n
    }

    /// The row under the cursor.
    pub open spec fn cursor_row(&self) -> TreeRow {
        let rows = self.tree_rows();
        rows[selectable_of(rows)[self.cursor as int] as int]
    }

    /// The cursor after the rows changed: as `clamped_cursor`, and at the
    /// top when no row is left.
    pub open spec fn zero_clamped(cursor: usize, count: nat) -> usize {
        if count == 0 {
            0
        } else {
            Self::clamped_cursor(cursor, count)
        }
    }

    /// `new` differs from `old` at most in the expanded rows.
    pub open spec fn same_but_expanded(old: Dashboard, new: Dashboard) -> bool {
        new == Dashboard {
            expanded_archetypes: new.expanded_archetypes,
            expanded_entities: new.expanded_entities,
            expanded_components: new.expanded_components,
            ..old
        }
    }

    /// Archetype `a` and everything under it collapsed.
    pub open spec fn arch_collapsed(old: Dashboard, new: Dashboard, a: usize) -> bool {
        &&& forall|x: usize| #[trigger] new.expanded_archetypes@.contains(x) <==> (
            old.expanded_archetypes@.contains(x) && x != a)
        &&& forall|x: (usize, usize)| #[trigger] new.expanded_entities@.contains(x) <==> (
            old.expanded_entities@.contains(x) && !pair_under(x, a, None))
        &&& forall|x: (usize, usize, usize)| #[trigger] new.expanded_components@.contains(x) <==> (
            old.expanded_components@.contains(x) && !triple_under(x, a, None, None))
    }

    /// Entity row `e` of archetype `a` and its components collapsed.
    pub open spec fn entity_collapsed(old: Dashboard, new: Dashboard, a: usize, e: usize) -> bool {
        &&& new.expanded_archetypes == old.expanded_archetypes
        &&& forall|x: (usize, usize)| #[trigger] new.expanded_entities@.contains(x) <==> (
            old.expanded_entities@.contains(x) && !pair_under(x, a, Some(e)))
        &&& forall|x: (usize, usize, usize)| #[trigger] new.expanded_components@.contains(x) <==> (
            old.expanded_components@.contains(x) && !triple_under(x, a, Some(e), None))
    }

    /// Component `c` of entity row `e` of archetype `a` collapsed.
    pub open spec fn component_collapsed(old: Dashboard, new: Dashboard, a: usize, e: usize, c: usize) -> bool {
        &&& new.expanded_archetypes == old.expanded_archetypes
        &&& new.expanded_entities == old.expanded_entities
        &&& forall|x: (usize, usize, usize)| #[trigger] new.expanded_components@.contains(x) <==> (
            old.expanded_components@.contains(x) && x != (a, e, c))
    }

    /// Enter on the cursor row: an archetype, entity or component row opens
    /// when closed and closes (with what is open under it) when open; only
    /// archetype rows ask for the expanded list to be sent.
    pub open spec fn toggled(old: Dashboard, new: Dashboard, send: bool) -> bool {
        if selectable_count(old.tree_rows()) == 0 {
            new == old && !send
        } else {
            &&& Self::same_but_expanded(old, new)
            &&& match old.cursor_row() {
                TreeRow::Archetype { arch_idx: a } => send && if old.expanded_archetypes@.contains(a) {
                    Self::arch_collapsed(old, new, a)
                } else {
                    &&& new.expanded_archetypes@ == old.expanded_archetypes@.push(a)
                    &&& new.expanded_entities == old.expanded_entities
                    &&& new.expanded_components == old.expanded_components
                },
                TreeRow::Entity { arch_idx: a, entity_row: e } => !send && if old.expanded_entities@.contains((a, e)) {
                    Self::entity_collapsed(old, new, a, e)
                } else {
                    &&& new.expanded_archetypes == old.expanded_archetypes
                    &&& new.expanded_entities@ == old.expanded_entities@.push((a, e))
                    &&& new.expanded_components == old.expanded_components
                },
                TreeRow::Component { arch_idx: a, entity_row: e, comp_idx: c } => !send
                    && if old.expanded_components@.contains((a, e, c)) {
                    Self::component_collapsed(old, new, a, e, c)
                } else {
                    &&& new.expanded_archetypes == old.expanded_archetypes
                    &&& new.expanded_entities == old.expanded_entities
                    &&& new.expanded_components@ == old.expanded_components@.push((a, e, c))
                },
                TreeRow::Field { .. } => !send && new == old,
            }
        }
    }

    /// The cursor moved to the first selectable row equal to `target`, if
    /// there is one; nothing else changed.
    pub open spec fn jumped(old: Dashboard, new: Dashboard, target: TreeRow) -> bool {
        let rows = old.tree_rows();
        let sel = selectable_of(rows);
        &&& new == Dashboard { cursor: new.cursor, ..old }
        &&& if exists|si: int| 0 <= si < sel.len() && #[trigger] rows[sel[si] as int] == target {
            &&& 0 <= new.cursor < sel.len()
            &&& rows[sel[new.cursor as int] as int] == target
            &&& forall|j: int| 0 <= j < new.cursor ==> #[trigger] rows[sel[j] as int] != target
        } else {
            new.cursor == old.cursor
        }
    }

    /// Left on the cursor row: an open row closes (with what is open under
    /// it); on a closed entity or component row the cursor moves to the
    /// row it sits under.
    pub open spec fn collapsed(old: Dashboard, new: Dashboard, send: bool) -> bool {
        if selectable_count(old.tree_rows()) == 0 {
            new == old && !send
        } else {
            match old.cursor_row() {
                TreeRow::Archetype { arch_idx: a } => if old.expanded_archetypes@.contains(a) {
                    send && Self::same_but_expanded(old, new) && Self::arch_collapsed(old, new, a)
                } else {
                    !send && new == old
                },
                TreeRow::Entity { arch_idx: a, entity_row: e } => !send && if old.expanded_entities@.contains((a, e)) {
                    Self::same_but_expanded(old, new) && Self::entity_collapsed(old, new, a, e)
                } else {
                    Self::jumped(old, new, TreeRow::Archetype { arch_idx: a })
                },
                TreeRow::Component { arch_idx: a, entity_row: e, comp_idx: c } => !send
                    && if old.expanded_components@.contains((a, e, c)) {
                    Self::same_but_expanded(old, new) && Self::component_collapsed(old, new, a, e, c)
                } else {
                    Self::jumped(old, new, TreeRow::Entity { arch_idx: a, entity_row: e })
                },
                TreeRow::Field { .. } => !send && new == old,
            }
        }
    }

    /// Open or close the row under the cursor. Returns whether the list of
    /// expanded archetypes changed and should be sent to the game.
    pub fn toggle_expand(&mut self) -> (send: bool)
        requires
            old(self).texts_ok(),
            old(self).cursor_ok(),
        ensures
            Self::toggled(*old(self), *final(self), send),
    {
        let (rows, sel) = self.build_tree_rows();
        if sel.len() == 0 {
            return false;
        }
        proof {
            assert(sel@.contains(sel@[self.cursor as int]));
        }
        let row_idx = sel[self.cursor];
        match rows[row_idx] {
            TreeRow::Archetype { arch_idx } => {
                if has_index(&self.expanded_archetypes, arch_idx) {
                    retain_indices(&mut self.expanded_archetypes, arch_idx);
                    retain_pairs(&mut self.expanded_entities, arch_idx, None);
                    retain_triples(&mut self.expanded_components, arch_idx, None, None);
                } else {
                    self.expanded_archetypes.push(arch_idx);
                }
                true
            },
            TreeRow::Entity { arch_idx, entity_row } => {
                if has_pair(&self.expanded_entities, (arch_idx, entity_row)) {
                    retain_pairs(&mut self.expanded_entities, arch_idx, Some(entity_row));
                    retain_triples(&mut self.expanded_components, arch_idx, Some(entity_row), None);
                } else {
                    self.expanded_entities.push((arch_idx, entity_row));
                }
                false
            },
            TreeRow::Component { arch_idx, entity_row, comp_idx } => {
                if has_triple(&self.expanded_components, (arch_idx, entity_row, comp_idx)) {
                    retain_triples(
                        &mut self.expanded_components,
                        arch_idx,
                        Some(entity_row),
                        Some(comp_idx),
                    );
                } else {
                    self.expanded_components.push((arch_idx, entity_row, comp_idx));
                }
                false
            },
            TreeRow::Field { .. } => false,
        }
    }

    /// Move the cursor to the first selectable row equal to `target`.
    fn jump_to(&mut self, target: TreeRow)
        requires
            old(self).texts_ok(),
        ensures
            Self::jumped(*old(self), *final(self), target),
    {
        let (rows, sel) = self.build_tree_rows();
        let mut si: usize = 0;
        while si < sel.len()
            invariant
                rows@ == old(self).tree_rows(),
                sel@ == selectable_of(rows@),
                selectable_positions(rows@, sel@),
                *self == *old(self),
                si <= sel@.len(),
                forall|j: int| 0 <= j < si ==> #[trigger] rows@[sel@[j] as int] != target,
            decreases sel@.len() - si,
        {
            proof {
                assert(sel@.contains(sel@[si as int]));
            }
            if rows[sel[si]] == target {
                self.cursor = si;
                return;
            }
            si = si + 1;
        }
        proof {
            assert(!exists|k: int| 0 <= k < sel@.len() && #[trigger] rows@[sel@[k] as int] == target);
        }
    }

    /// Close the row under the cursor, or, when it is closed, move to the
    /// row it sits under. Returns whether the list of expanded archetypes
    /// changed and should be sent to the game.
    pub fn collapse_or_parent(&mut self) -> (send: bool)
        requires
            old(self).texts_ok(),
            old(self).cursor_ok(),
        ensures
            Self::collapsed(*old(self), *final(self), send),
    {
        let (rows, sel) = self.build_tree_rows();
        if sel.len() == 0 {
            return false;
        }
        proof {
            assert(sel@.contains(sel@[self.cursor as int]));
        }
        let row_idx = sel[self.cursor];
        match rows[row_idx] {
            TreeRow::Archetype { arch_idx } => {
                if has_index(&self.expanded_archetypes, arch_idx) {
                    retain_indices(&mut self.expanded_archetypes, arch_idx);
                    retain_pairs(&mut self.expanded_entities, arch_idx, None);
                    retain_triples(&mut self.expanded_components, arch_idx, None, None);
                    true
                } else {
                    false
                }
            },
            TreeRow::Entity { arch_idx, entity_row } => {
                if has_pair(&self.expanded_entities, (arch_idx, entity_row)) {
                    retain_pairs(&mut self.expanded_entities, arch_idx, Some(entity_row));
                    retain_triples(&mut self.expanded_components, arch_idx, Some(entity_row), None);
                } else {
                    self.jump_to(TreeRow::Archetype { arch_idx });
                }
                false
            },
            TreeRow::Component { arch_idx, entity_row, comp_idx } => {
                if has_triple(&self.expanded_components, (arch_idx, entity_row, comp_idx)) {
                    retain_triples(
                        &mut self.expanded_components,
                        arch_idx,
                        Some(entity_row),
                        Some(comp_idx),
                    );
                } else {
                    self.jump_to(TreeRow::Entity { arch_idx, entity_row });
                }
                false
            },
            TreeRow::Field { .. } => false,
        }
    }
}

impl Dashboard {
    /// What a key press does, in search mode and in normal mode.
    pub open spec fn after_key(old: Dashboard, key: KeyPress, new: Dashboard, action: KeyAction) -> bool {
        if old.input_mode == InputMode::Search {
            &&& action == KeyAction::Continue
            &&& match key.code {
                KeyCode::Esc => {
                    &&& new == Dashboard {
                        input_mode: InputMode::Normal,
                        search_query: new.search_query,
                        ..old
                    }
                    &&& new.search_query@.len() == 0
                },
                KeyCode::Enter => {
                    &&& new == Dashboard {
                        input_mode: InputMode::Normal,
                        search_query: new.search_query,
                        active_filter: new.active_filter,
                        cursor: new.cursor,
                        ..old
                    }
                    &&& new.search_query@.len() == 0
                    &&& if old.search_query@.len() == 0 {
                        new.active_filter is None
                    } else {
                        new.active_filter is Some && new.active_filter->0@ == old.search_query@
                    }
                    &&& new.cursor == Self::zero_clamped(old.cursor, selectable_count(new.tree_rows()))
                },
                KeyCode::Backspace => {
                    &&& new == Dashboard { search_query: new.search_query, ..old }
                    &&& new.search_query@ == if old.search_query@.len() > 0 {
                        old.search_query@.drop_last()
                    } else {
                        old.search_query@
                    }
                },
                KeyCode::Char(c) => {
                    &&& new == Dashboard { search_query: new.search_query, ..old }
                    &&& new.search_query@ == old.search_query@.push(c)
                },
                _ => new == old,
            }
        } else {
            let overview = old.active_tab == Tab::Overview;
            let logs = old.active_tab == Tab::Logs;
            let unchanged = action == KeyAction::Continue && new == old;
            match key.code {
                KeyCode::Char(c) => if c == 'q' || (c == 'c' && key.ctrl) {
                    action == KeyAction::Quit && new == old
                } else if c == 'p' {
                    action == KeyAction::Continue && new == Dashboard { paused: !old.paused, ..old }
                } else if c == '1' {
                    action == KeyAction::Continue && new == Dashboard { active_tab: Tab::Overview, ..old }
                } else if c == '2' {
                    action == KeyAction::Continue && new == Dashboard { active_tab: Tab::Systems, ..old }
                } else if c == '3' {
                    action == KeyAction::Continue && new == Dashboard { active_tab: Tab::Assets, ..old }
                } else if c == '4' {
                    action == KeyAction::Continue && new == Dashboard { active_tab: Tab::Logs, ..old }
                } else if c == 's' && overview {
                    &&& action == KeyAction::Continue
                    &&& new == Dashboard { sort_mode: old.sort_mode.spec_next(), cursor: new.cursor, ..old }
                    &&& new.cursor == Self::clamped_cursor(old.cursor, selectable_count(new.tree_rows()))
                } else if c == '/' && overview {
                    &&& action == KeyAction::Continue
                    &&& if old.active_filter is Some {
                        &&& new == Dashboard { active_filter: None, cursor: new.cursor, ..old }
                        &&& new.cursor == Self::zero_clamped(old.cursor, selectable_count(new.tree_rows()))
                    } else {
                        &&& new == Dashboard {
                            input_mode: InputMode::Search,
                            search_query: new.search_query,
                            ..old
                        }
                        &&& new.search_query@.len() == 0
                    }
                } else if c == 'l' && logs {
                    action == KeyAction::Continue && new == Dashboard { log_filter: old.log_filter.spec_next(), ..old }
                } else if c == 'g' && logs {
                    action == KeyAction::Continue && new == Dashboard { log_auto_scroll: !old.log_auto_scroll, ..old }
                } else {
                    unchanged
                },
                KeyCode::Tab => action == KeyAction::Continue && new == Dashboard {
                    active_tab: if key.shift {
                        old.active_tab.spec_prev()
                    } else {
                        old.active_tab.spec_next()
                    },
                    ..old
                },
                KeyCode::Up => if overview {
                    action == KeyAction::Continue && new == Dashboard {
                        cursor: if old.cursor > 0 {
                            (old.cursor - 1) as usize
                        } else {
                            old.cursor
                        },
                        ..old
                    }
                } else if logs {
                    action == KeyAction::Continue && new == Dashboard {
                        log_auto_scroll: false,
                        log_scroll_offset: if old.log_scroll_offset > 0 {
                            (old.log_scroll_offset - 1) as usize
                        } else {
                            old.log_scroll_offset
                        },
                        ..old
                    }
                } else {
                    unchanged
                },
                KeyCode::Down => if overview {
                    action == KeyAction::Continue && new == Dashboard {
                        cursor: if old.cursor + 1 < selectable_count(old.tree_rows()) {
                            (old.cursor + 1) as usize
                        } else {
                            old.cursor
                        },
                        ..old
                    }
                } else if logs {
                    action == KeyAction::Continue && new == Dashboard {
                        log_auto_scroll: false,
                        log_scroll_offset: (old.log_scroll_offset + 1) as usize,
                        ..old
                    }
                } else {
                    unchanged
                },
                KeyCode::Enter | KeyCode::Right => if overview {
                    action != KeyAction::Quit && Self::toggled(old, new, action == KeyAction::SendExpanded)
                } else {
                    unchanged
                },
                KeyCode::Left => if overview {
                    action != KeyAction::Quit && Self::collapsed(old, new, action == KeyAction::SendExpanded)
                } else {
                    unchanged
                },
                KeyCode::Esc => if overview {
                    &&& action == KeyAction::SendExpanded
                    &&& new == Dashboard {
                        expanded_archetypes: new.expanded_archetypes,
                        expanded_entities: new.expanded_entities,
                        expanded_components: new.expanded_components,
                        cursor: 0,
                        ..old
                    }
                    &&& new.expanded_archetypes@.len() == 0
                    &&& new.expanded_entities@.len() == 0
                    &&& new.expanded_components@.len() == 0
                } else {
                    unchanged
                },
                _ => unchanged,
            }
        }
    }

    /// The cursor after the rows changed, at the top when no row is left.
    fn clamp_cursor_or_top(&mut self)
        requires
            old(self).texts_ok(),
        ensures
            *final(self) == (Dashboard { cursor: final(self).cursor, ..*old(self) }),
            final(self).cursor == Self::zero_clamped(
                old(self).cursor,
                selectable_count(old(self).tree_rows()),
            ),
            old(self).is_listing(old(self).listed()),
    {
        let (_, selectable) = self.build_tree_rows();
        if selectable.len() > 0 && self.cursor >= selectable.len() {
            self.cursor = selectable.len() - 1;
        }
        if selectable.len() == 0 {
            self.cursor = 0;
        }
    }

    /// Handle a key press: edit the search text in search mode, otherwise
    /// switch tabs, pause, sort, filter, move the cursor, open and close
    /// rows, or scroll the logs. Returns what the host should do next.
    pub fn handle_key(&mut self, key: KeyPress) -> (action: KeyAction)
        requires
            old(self).texts_ok(),
            old(self).input_mode == InputMode::Normal && old(self).active_tab == Tab::Overview && (
            key.code == KeyCode::Enter || key.code == KeyCode::Right || key.code == KeyCode::Left)
                ==> old(self).cursor_ok(),
            old(self).input_mode == InputMode::Normal && old(self).active_tab == Tab::Overview
                && key.code == KeyCode::Down ==> old(self).cursor < usize::MAX,
            old(self).input_mode == InputMode::Normal && old(self).active_tab == Tab::Logs
                && key.code == KeyCode::Down ==> old(self).log_scroll_offset < usize::MAX,
        ensures
            Self::after_key(*old(self), key, *final(self), action),
            old(self).input_mode == InputMode::Normal && old(self).active_tab == Tab::Logs && key.code
                == KeyCode::Up ==> {
                &&& final(self).log_scroll_offset == if old(self).log_scroll_offset > 0 {
                    old(self).log_scroll_offset - 1
                } else {
                    0
                }
                &&& !final(self).log_auto_scroll
                &&& action == KeyAction::Continue
            },
            old(self).input_mode == InputMode::Normal && old(self).active_tab == Tab::Logs && key.code
                == KeyCode::Down ==> {
                &&& final(self).log_scroll_offset == old(self).log_scroll_offset + 1
                &&& !final(self).log_auto_scroll
                &&& action == KeyAction::Continue
            },
            old(self).input_mode == InputMode::Normal && old(self).active_tab == Tab::Overview && key.code
                == KeyCode::Up ==> final(self).cursor == if old(self).cursor > 0 {
                old(self).cursor - 1
            } else {
                0
            },
    {
        if self.input_mode == InputMode::Search {
            match key.code {
                KeyCode::Esc => {
                    self.input_mode = InputMode::Normal;
                    self.search_query = String::new();
                },
                KeyCode::Enter => {
                    self.input_mode = InputMode::Normal;
                    if self.search_query.as_str().is_empty() {
                        self.active_filter = None;
                    } else {
                        self.active_filter = Some(self.search_query.clone());
                    }
                    self.search_query = String::new();
                    let ghost mid = *self;
                    self.clamp_cursor_or_top();
                    proof {
                        Self::lemma_same_tree(mid, *self);
                    }
                },
                KeyCode::Backspace => {
                    pop_char(&mut self.search_query);
                },
                KeyCode::Char(c) => {
                    crate::names::push_char(&mut self.search_query, c);
                },
                _ => {},
            }
            return KeyAction::Continue;
        }
        let overview = self.active_tab == Tab::Overview;
        let logs = self.active_tab == Tab::Logs;
        match key.code {
            KeyCode::Char(c) => {
                if c == 'q' || (c == 'c' && key.ctrl) {
                    return KeyAction::Quit;
                } else if c == 'p' {
                    self.paused = !self.paused;
                } else if c == '1' {
                    self.active_tab = Tab::Overview;
                } else if c == '2' {
                    self.active_tab = Tab::Systems;
                } else if c == '3' {
                    self.active_tab = Tab::Assets;
                } else if c == '4' {
                    self.active_tab = Tab::Logs;
                } else if c == 's' && overview {
                    self.sort_mode = self.sort_mode.next();
                    let ghost mid = *self;
                    self.clamp_cursor();
                    proof {
                        Self::lemma_same_tree(mid, *self);
                    }
                } else if c == '/' && overview {
                    if self.active_filter.is_some() {
                        self.active_filter = None;
                        let ghost mid = *self;
                        self.clamp_cursor_or_top();
                        proof {
                            Self::lemma_same_tree(mid, *self);
                        }
                    } else {
                        self.input_mode = InputMode::Search;
                        self.search_query = String::new();
                    }
                } else if c == 'l' && logs {
                    self.log_filter = self.log_filter.next();
                } else if c == 'g' && logs {
                    self.log_auto_scroll = !self.log_auto_scroll;
                }
            },
            KeyCode::Tab => {
                self.active_tab = if key.shift {
                    self.active_tab.prev()
                } else {
                    self.active_tab.next()
                };
            },
            KeyCode::Up => {
                if overview {
                    if self.cursor > 0 {
                        self.cursor = self.cursor - 1;
                    }
                } else if logs {
                    self.log_auto_scroll = false;
                    if self.log_scroll_offset > 0 {
                        self.log_scroll_offset = self.log_scroll_offset - 1;
                    }
                }
            },
            KeyCode::Down => {
                if overview {
                    let (_, selectable) = self.build_tree_rows();
                    if self.cursor + 1 < selectable.len() {
                        self.cursor = self.cursor + 1;
                    }
                } else if logs {
                    self.log_auto_scroll = false;
                    self.log_scroll_offset = self.log_scroll_offset + 1;
                }
            },
            KeyCode::Enter | KeyCode::Right => {
                if overview {
                    if self.toggle_expand() {
                        return KeyAction::SendExpanded;
                    }
                }
            },
            KeyCode::Left => {
                if overview {
                    if self.collapse_or_parent() {
                        return KeyAction::SendExpanded;
                    }
                }
            },
            KeyCode::Esc => {
                if overview {
                    self.expanded_archetypes.clear();
                    self.expanded_entities.clear();
                    self.expanded_components.clear();
                    self.cursor = 0;
                    return KeyAction::SendExpanded;
                }
            },
            _ => {},
        }
        KeyAction::Continue
    }
}

/// Scrolling the log view: in normal mode on the logs tab, Up moves the
/// view one line up (staying at the top line when already there) and Down
/// one line down, and either key stops following new lines. Nothing else
/// the logs tab shows changes.
pub proof fn law_log_scroll_keys(old: Dashboard, key: KeyPress, new: Dashboard, action: KeyAction)
    requires
        Dashboard::after_key(old, key, new, action),
        old.input_mode == InputMode::Normal,
        old.active_tab == Tab::Logs,
        key.code == KeyCode::Up || key.code == KeyCode::Down,
        key.code == KeyCode::Down ==> old.log_scroll_offset < usize::MAX,
    ensures
        action == KeyAction::Continue,
        !new.log_auto_scroll,
        key.code == KeyCode::Up ==> new.log_scroll_offset == if old.log_scroll_offset > 0 {
            old.log_scroll_offset - 1
        } else {
            0
        },
        key.code == KeyCode::Up && old.log_scroll_offset > 0 ==> new.log_scroll_offset < old.log_scroll_offset,
        key.code == KeyCode::Down ==> new.log_scroll_offset == old.log_scroll_offset + 1,
        new.active_tab == old.active_tab,
        new.log_filter == old.log_filter,
        new.log_entries == old.log_entries,
        new.cursor == old.cursor,
{
}

/// What the keys do. In normal mode: `q` and Ctrl+C quit and change
/// nothing, `p` flips pausing, `1` to `4` pick the overview, systems,
/// assets and logs tabs, `g` on the logs tab flips following new lines, Up
/// on the overview moves the cursor one row up (staying on the first row),
/// Down moves it one row down while a row is left, and Esc on the overview
/// closes every row and puts the cursor on the first one. In search mode
/// no key quits: a character is added to the search text, Backspace takes
/// the last one off, Esc leaves the search without changing the filter, and
/// Enter leaves it with the search text as the filter (none when empty).
pub proof fn law_key_effects(old: Dashboard, key: KeyPress, new: Dashboard, action: KeyAction)
    requires
        Dashboard::after_key(old, key, new, action),
    ensures
        old.input_mode == InputMode::Normal && (key.code == KeyCode::Char('q') || (key.code
            == KeyCode::Char('c') && key.ctrl)) ==> action == KeyAction::Quit && new == old,
        old.input_mode == InputMode::Normal && key.code == KeyCode::Char('p') ==> {
            &&& action == KeyAction::Continue
            &&& new.paused == !old.paused
            &&& new.active_tab == old.active_tab
        },
        old.input_mode == InputMode::Normal && key.code == KeyCode::Char('1') ==> new.active_tab
            == Tab::Overview,
        old.input_mode == InputMode::Normal && key.code == KeyCode::Char('2') ==> new.active_tab
            == Tab::Systems,
        old.input_mode == InputMode::Normal && key.code == KeyCode::Char('3') ==> new.active_tab
            == Tab::Assets,
        old.input_mode == InputMode::Normal && key.code == KeyCode::Char('4') ==> new.active_tab
            == Tab::Logs,
        old.input_mode == InputMode::Normal && old.active_tab == Tab::Logs && key.code == KeyCode::Char('g')
            ==> new.log_auto_scroll == !old.log_auto_scroll && new.log_scroll_offset
            == old.log_scroll_offset,
        old.input_mode == InputMode::Normal && old.active_tab == Tab::Overview && key.code == KeyCode::Up
            ==> new.cursor == if old.cursor > 0 {
            old.cursor - 1
        } else {
            0int
        },
        old.input_mode == InputMode::Normal && old.active_tab == Tab::Overview && key.code == KeyCode::Down
            && old.cursor < usize::MAX ==> new.cursor == if old.cursor + 1 < selectable_count(
            old.tree_rows(),
        ) {
            old.cursor + 1
        } else {
            old.cursor as int
        },
        old.input_mode == InputMode::Normal && old.active_tab == Tab::Overview && key.code == KeyCode::Esc
            ==> {
            &&& action == KeyAction::SendExpanded
            &&& new.cursor == 0
            &&& new.expanded_archetypes@.len() == 0
            &&& new.expanded_entities@.len() == 0
            &&& new.expanded_components@.len() == 0
        },
        old.input_mode == InputMode::Search ==> action == KeyAction::Continue,
        old.input_mode == InputMode::Search ==> new.active_tab == old.active_tab && new.paused == old.paused,
        forall|c: char|
            old.input_mode == InputMode::Search && key.code == KeyCode::Char(c) ==> {
                &&& new.input_mode == InputMode::Search
                &&& new.search_query@ == old.search_query@.push(c)
            },
        old.input_mode == InputMode::Search && key.code == KeyCode::Backspace ==> {
            &&& new.input_mode == InputMode::Search
            &&& new.search_query@.len() == if old.search_query@.len() > 0 {
                old.search_query@.len() - 1
            } else {
                0int
            }
            &&& new.search_query@ == old.search_query@.take(new.search_query@.len() as int)
        },
        old.input_mode == InputMode::Search && key.code == KeyCode::Esc ==> {
            &&& new.input_mode == InputMode::Normal
            &&& new.search_query@.len() == 0
            &&& new.active_filter == old.active_filter
        },
        old.input_mode == InputMode::Search && key.code == KeyCode::Enter ==> {
            &&& new.input_mode == InputMode::Normal
            &&& new.search_query@.len() == 0
            &&& (old.search_query@.len() == 0 ==> new.active_filter is None)
            &&& (old.search_query@.len() > 0 ==> new.active_filter is Some && new.active_filter->0@
                == old.search_query@)
        },
{
    if old.input_mode == InputMode::Search && key.code == KeyCode::Backspace {
        if old.search_query@.len() > 0 {
            assert(old.search_query@.drop_last() =~= old.search_query@.take(old.search_query@.len() - 1));
        } else {
            assert(old.search_query@ =~= old.search_query@.take(0));
        }
    }
}

/// Whether the text of every expanded component that these archetypes list
/// can be read for fields.
pub fn archetypes_readable(archs: &Vec<ArchetypeInfo>, expanded: &Vec<(usize, usize, usize)>) -> (r: bool)
    ensures
        r == archetype_texts_ok(archs@, expanded@),
{
    let mut i: usize = 0;
    while i < expanded.len()
        invariant
            i <= expanded@.len(),
            forall|j: int|
                0 <= j < i && component_text(archs@, #[trigger] expanded@[j]) is Some ==> text_ok(
                    component_text(archs@, expanded@[j])->0,
                ),
        decreases expanded@.len() - i,
    {
        let (a, k, c) = expanded[i];
        if a < archs.len() {
            match &archs[a].entities {
                Some(es) => {
                    if k < es.len() && c < es[k].components.len() {
                        if !debug_text_ok(es[k].components[c].debug_value.as_str()) {
                            proof {
                                assert(expanded@.contains(expanded@[i as int]));
                            }
                            return false;
                        }
                    }
                },
                None => {},
            }
        }
        i = i + 1;
    }
    proof {
        assert forall|x: (usize, usize, usize)|
            #[trigger] expanded@.contains(x) && component_text(archs@, x) is Some implies text_ok(
                component_text(archs@, x)->0,
            ) by {
            let j = choose|j: int| 0 <= j < expanded@.len() && expanded@[j] == x;
        }
    }
    true
}

impl Dashboard {
    /// Whether the cursor is on a selectable row (or there is none).
    pub fn cursor_in_range(&self) -> (r: bool)
        requires
            self.texts_ok(),
        ensures
            r == self.cursor_ok(),
    {
        let (_, sel) = self.build_tree_rows();
        sel.len() == 0 || self.cursor < sel.len()
    }
}

/// Position in the tree of the row under the cursor, or 0 when the cursor
/// is past the selectable rows.
pub fn cursor_row_index(sel: &Vec<usize>, cursor: usize) -> (r: usize)
    ensures
        r == if cursor < sel@.len() {
            sel@[cursor as int]
        } else {
            0
        },
{
    if cursor < sel.len() {
        sel[cursor]
    } else {
        0
    }
}

/// `a - b`, or 0 when `b` is larger.
pub open spec fn minus_or_zero(a: int, b: int) -> int {
    if a >= b {
        a - b
    } else {
        0
    }
}

/// First tree line shown in a view of `visible` lines: the cursor line is
/// kept in the middle, without scrolling past the end.
pub fn tree_scroll(cursor_row: usize, visible: usize, total: usize) -> (r: usize)
    ensures
        r == if cursor_row >= visible / 2 {
            let offset = cursor_row - visible / 2;
            let max_offset = minus_or_zero(total as int, visible as int);
            if offset <= max_offset {
                offset
            } else {
                max_offset
            }
        } else {
            0
        },
{
    if cursor_row >= visible / 2 {
        let offset = cursor_row - visible / 2;
        let max_offset = total.saturating_sub(visible);
        if offset <= max_offset {
            offset
        } else {
            max_offset
        }
    } else {
        0
    }
}

/// First log line shown in a view of `visible` lines: the last page when
/// scrolling follows the log, else the chosen offset, kept within the last
/// page.
pub fn log_view_offset(auto_scroll: bool, offset: usize, total: usize, visible: usize) -> (r: usize)
    ensures
        r == if auto_scroll {
            minus_or_zero(total as int, visible as int)
        } else if offset <= minus_or_zero(total as int, visible as int) {
            offset as int
        } else {
            minus_or_zero(total as int, visible as int)
        },
{
    let last_page = total.saturating_sub(visible);
    if auto_scroll {
        last_page
    } else if offset <= last_page {
        offset
    } else {
        last_page
    }
}

} // verus!
