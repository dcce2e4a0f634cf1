//! Reading the `Debug` text of a component value: trimming, splitting a
//! struct's text into named fields, and short previews.
use vstd::prelude::*;

use crate::names::{chars_of, string_of};

verus! {

/// Unicode `White_Space`, the characters that `str::trim` removes.
pub open spec fn is_white(c: char) -> bool {
    let u = c as u32;
    ||| 0x9 <= u <= 0xd
    ||| u == 0x20
    ||| u == 0x85
    ||| u == 0xa0
    ||| u == 0x1680
    ||| 0x2000 <= u <= 0x200a
    ||| u == 0x2028
    ||| u == 0x2029
    ||| u == 0x202f
    ||| u == 0x205f
    ||| u == 0x3000
}

/// Number of white characters at the start.
pub open spec fn lead_white(s: Seq<char>) -> nat
    decreases s.len(),
{
    if s.len() > 0 && is_white(s[0]) {
        1 + lead_white(s.drop_first())
    } else {
        0
    }
}

/// Number of white characters at the end.
pub open spec fn trail_white(s: Seq<char>) -> nat
    decreases s.len(),
{
    if s.len() > 0 && is_white(s.last()) {
        1 + trail_white(s.drop_last())
    } else {
        0
    }
}

/// The text without white characters at either end.
pub open spec fn trim(s: Seq<char>) -> Seq<char> {
    let t = s.skip(lead_white(s) as int);
    t.take(t.len() - trail_white(t))
}

proof fn lemma_lead_white_le(s: Seq<char>)
    ensures
        lead_white(s) <= s.len(),
    decreases s.len(),
{
    if s.len() > 0 && is_white(s[0]) {
        lemma_lead_white_le(s.drop_first());
    }
}

proof fn lemma_trail_white_le(s: Seq<char>)
    ensures
        trail_white(s) <= s.len(),
    decreases s.len(),
{
    if s.len() > 0 && is_white(s.last()) {
        lemma_trail_white_le(s.drop_last());
    }
}

/// Whether a character is white.
pub fn char_is_white(c: char) -> (r: bool)
    ensures
        r == is_white(c),
{
    let u = c as u32;
    (0x9 <= u && u <= 0xd) || u == 0x20 || u == 0x85 || u == 0xa0 || u == 0x1680 || (0x2000 <= u
        && u <= 0x200a) || u == 0x2028 || u == 0x2029 || u == 0x202f || u == 0x205f || u == 0x3000
}

/// The bounds of `v[lo..hi]` with white characters trimmed from both ends.
pub fn trim_range(v: &Vec<char>, lo: usize, hi: usize) -> (r: (usize, usize))
    requires
        lo <= hi <= v@.len(),
    ensures
        lo <= r.0 <= r.1 <= hi,
        v@.subrange(r.0 as int, r.1 as int) == trim(v@.subrange(lo as int, hi as int)),
{
    let ghost s = v@.subrange(lo as int, hi as int);
    let mut a = lo;
    while a < hi && char_is_white(v[a])
        invariant
            lo <= a <= hi <= v@.len(),
            s == v@.subrange(lo as int, hi as int),
            lead_white(s) == (a - lo) + lead_white(v@.subrange(a as int, hi as int)),
        decreases hi - a,
    {
        proof {
            assert(v@.subrange(a as int, hi as int).drop_first() =~= v@.subrange(a + 1, hi as int));
        }
        a = a + 1;
    }
    proof {
        assert(lead_white(v@.subrange(a as int, hi as int)) == 0);
        assert(s.skip(lead_white(s) as int) =~= v@.subrange(a as int, hi as int));
    }
    let ghost t = v@.subrange(a as int, hi as int);
    let mut b = hi;
    while b > a && char_is_white(v[b - 1])
        invariant
            lo <= a <= b <= hi <= v@.len(),
            t == v@.subrange(a as int, hi as int),
            trail_white(t) == (hi - b) + trail_white(v@.subrange(a as int, b as int)),
        decreases b - a,
    {
        proof {
            assert(v@.subrange(a as int, b as int).drop_last() =~= v@.subrange(a as int, b - 1));
        }
        b = b - 1;
    }
    proof {
        assert(trail_white(v@.subrange(a as int, b as int)) == 0);
        assert(t.take(t.len() - trail_white(t)) =~= v@.subrange(a as int, b as int));
    }
    (a, b)
}

/// How a character changes the bracket depth.
pub open spec fn depth_change(c: char) -> int {
    if c == '{' || c == '(' || c == '[' {
        1
    } else if c == '}' || c == ')' || c == ']' {
        -1
    } else {
        0
    }
}

/// Bracket depth before position `i`.
pub open spec fn depth_at(s: Seq<char>, i: int) -> int
    decreases i,
{
    if i <= 0 {
        0
    } else {
        depth_at(s, i - 1) + depth_change(s[i - 1])
    }
}

/// Position of the first `c` outside all brackets at or after `from`, or
/// the length when there is none.
pub open spec fn first_top(s: Seq<char>, c: char, from: int) -> int
    decreases s.len() - from,
{
    if from >= s.len() {
        s.len() as int
    } else if s[from] == c && depth_at(s, from) == 0 {
        from
    } else {
        first_top(s, c, from + 1)
    }
}

proof fn lemma_depth_bound(s: Seq<char>, i: int)
    requires
        0 <= i,
    ensures
        -i <= depth_at(s, i) <= i,
    decreases i,
{
    if i > 0 {
        lemma_depth_bound(s, i - 1);
    }
}

pub proof fn lemma_first_top_bounds(s: Seq<char>, c: char, from: int)
    requires
        0 <= from <= s.len(),
    ensures
        from <= first_top(s, c, from) <= s.len(),
        first_top(s, c, from) < s.len() ==> s[first_top(s, c, from)] == c && depth_at(
            s,
            first_top(s, c, from),
        ) == 0,
    decreases s.len() - from,
{
    if from < s.len() && !(s[from] == c && depth_at(s, from) == 0) {
        lemma_first_top_bounds(s, c, from + 1);
    }
}

/// `"name: value"` split at its first colon outside brackets, both sides
/// trimmed; nothing when there is no such colon, or the name is empty or
/// holds a space.
pub open spec fn field_of(s: Seq<char>) -> Option<(Seq<char>, Seq<char>)> {
    let i = first_top(s, ':', 0);
    if i >= s.len() {
        None
    } else {
        let name = trim(s.take(i));
        let value = trim(s.skip(i + 1));
        if name.len() > 0 && !name.contains(' ') {
            Some((name, value))
        } else {
            None
        }
    }
}

/// Bracket depth after `c`: opening brackets raise it, closing ones lower it.
fn step_depth(depth: i32, c: char) -> (r: i32)
    requires
        -0x7fff_fffe <= depth <= 0x7fff_fffe,
    ensures
        r == depth + depth_change(c),
{
    if c == '{' || c == '(' || c == '[' {
        depth + 1
    } else if c == '}' || c == ')' || c == ']' {
        depth - 1
    } else {
        depth
    }
}

/// Whether `v[lo..hi]` holds a space.
fn has_space(v: &Vec<char>, lo: usize, hi: usize) -> (r: bool)
    requires
        lo <= hi <= v@.len(),
    ensures
        r == v@.subrange(lo as int, hi as int).contains(' '),
{
    let mut i = lo;
    while i < hi
        invariant
            lo <= i <= hi <= v@.len(),
            forall|j: int| lo <= j < i ==> v@[j] != ' ',
        decreases hi - i,
    {
        if v[i] == ' ' {
            proof {
                assert(v@.subrange(lo as int, hi as int)[i - lo] == ' ');
            }
            return true;
        }
        i = i + 1;
    }
    proof {
        assert forall|k: int| 0 <= k < hi - lo implies v@.subrange(lo as int, hi as int)[k] != ' ' by {
            assert(v@.subrange(lo as int, hi as int)[k] == v@[lo + k]);
        }
    }
    false
}

/// `field_of` on `v[lo..hi]`.
fn field_in(v: &Vec<char>, lo: usize, hi: usize) -> (r: Option<(String, String)>)
    requires
        lo <= hi <= v@.len(),
        hi - lo < 0x7fff_ffff,
    ensures
        match (r, field_of(v@.subrange(lo as int, hi as int))) {
            (Some(p), Some(q)) => p.0@ == q.0 && p.1@ == q.1,
            (None, None) => true,
            _ => false,
        },
{
    let ghost s = v@.subrange(lo as int, hi as int);
    let mut depth: i32 = 0;
    let mut i = lo;
    while i < hi
        invariant
            lo <= i <= hi <= v@.len(),
            hi - lo < 0x7fff_ffff,
            s == v@.subrange(lo as int, hi as int),
            depth == depth_at(s, i - lo),
            first_top(s, ':', 0) == first_top(s, ':', i - lo),
        decreases hi - i,
    {
        proof {
            lemma_depth_bound(s, i - lo);
            assert(s[i - lo] == v@[i as int]);
        }
        if v[i] == ':' && depth == 0 {
            let (na, nb) = trim_range(v, lo, i);
            let (va, vb) = trim_range(v, i + 1, hi);
            proof {
                assert(s.take(i - lo) =~= v@.subrange(lo as int, i as int));
                assert(s.skip(i - lo + 1) =~= v@.subrange(i + 1, hi as int));
            }
            if na < nb && !has_space(v, na, nb) {
                let name = string_of(v, na, nb);
                let value = string_of(v, va, vb);
                return Some((name, value));
            }
            return None;
        }
        depth = step_depth(depth, v[i]);
        i = i + 1;
    }
    None
}

/// Parse `"field_name: value"` into the name and the value.
pub fn parse_one_field(s: &str) -> (r: Option<(String, String)>)
    requires
        s@.len() < 0x7fff_ffff,
    ensures
        match (r, field_of(s@)) {
            (Some(p), Some(q)) => p.0@ == q.0 && p.1@ == q.1,
            (None, None) => true,
            _ => false,
        },
{
    let v = chars_of(s);
    proof {
        assert(v@.subrange(0, v@.len() as int) =~= v@);
    }
    field_in(&v, 0, v.len())
}

/// Position of the first `c` at or after `from`, or the length when there
/// is none.
pub open spec fn first_of(s: Seq<char>, c: char, from: int) -> int
    decreases s.len() - from,
{
    if from >= s.len() {
        s.len() as int
    } else if s[from] == c {
        from
    } else {
        first_of(s, c, from + 1)
    }
}

proof fn lemma_first_of_bounds(s: Seq<char>, c: char, from: int)
    requires
        0 <= from <= s.len(),
    ensures
        from <= first_of(s, c, from) <= s.len(),
        first_of(s, c, from) < s.len() ==> s[first_of(s, c, from)] == c,
    decreases s.len() - from,
{
    if from < s.len() && s[from] != c {
        lemma_first_of_bounds(s, c, from + 1);
    }
}

/// The text split at its commas outside brackets.
pub open spec fn segments(s: Seq<char>) -> Seq<Seq<char>>
    decreases s.len(),
{
    let k = first_top(s, ',', 0);
    if k >= s.len() {
        seq![s]
    } else {
        proof {
            lemma_first_top_bounds(s, ',', 0);
        }
        seq![s.take(k)] + segments(s.skip(k + 1))
    }
}

/// The fields read from each segment, trimmed, in order; segments that are
/// not `name: value` give nothing.
pub open spec fn fields_of(segs: Seq<Seq<char>>) -> Seq<(Seq<char>, Seq<char>)>
    decreases segs.len(),
{
    if segs.len() == 0 {
        seq![]
    } else {
        let rest = fields_of(segs.drop_first());
        match field_of(trim(segs[0])) {
            Some(f) => seq![f] + rest,
            None => rest,
        }
    }
}

proof fn lemma_fields_of_add(a: Seq<Seq<char>>, b: Seq<Seq<char>>)
    ensures
        fields_of(a + b) == fields_of(a) + fields_of(b),
    decreases a.len(),
{
    if a.len() == 0 {
        assert(a + b =~= b);
    } else {
        assert((a + b).drop_first() =~= a.drop_first() + b);
        lemma_fields_of_add(a.drop_first(), b);
        assert((a + b)[0] == a[0]);
    }
}

/// Depth counted from a position at depth zero is the depth of the suffix.
proof fn lemma_depth_skip(s: Seq<char>, p: int, j: int)
    requires
        0 <= p <= s.len(),
        0 <= j <= s.len() - p,
        depth_at(s, p) == 0,
    ensures
        depth_at(s.skip(p), j) == depth_at(s, p + j),
    decreases j,
{
    if j > 0 {
        lemma_depth_skip(s, p, j - 1);
        assert(s.skip(p)[j - 1] == s[p + j - 1]);
    }
}

/// Number of bytes of a character in UTF-8.
pub open spec fn utf8_width(c: char) -> nat {
    let u = c as u32;
    if u < 0x80 {
        1
    } else if u < 0x800 {
        2
    } else if u < 0x10000 {
        3
    } else {
        4
    }
}

/// Number of bytes of a text in UTF-8.
pub open spec fn utf8_len(s: Seq<char>) -> nat
    decreases s.len(),
{
    if s.len() == 0 {
        0
    } else {
        utf8_len(s.drop_last()) + utf8_width(s.last())
    }
}

proof fn lemma_utf8_len_grows(s: Seq<char>, i: int, j: int)
    requires
        0 <= i <= j <= s.len(),
    ensures
        utf8_len(s.take(i)) + (j - i) <= utf8_len(s.take(j)),
        utf8_len(s.take(j)) <= utf8_len(s.take(i)) + 4 * (j - i),
    decreases j - i,
{
    if i < j {
        lemma_utf8_len_grows(s, i, j - 1);
        assert(s.take(j).drop_last() =~= s.take(j - 1));
    }
}

/// Number of bytes of a character in UTF-8.
fn char_width(c: char) -> (r: u64)
    ensures
        r == utf8_width(c),
{
    let u = c as u32;
    if u < 0x80 {
        1
    } else if u < 0x800 {
        2
    } else if u < 0x10000 {
        3
    } else {
        4
    }
}

/// Byte offset `b` of the text falls between characters before its last
/// one.
pub open spec fn boundary_before_last(t: Seq<char>, b: int) -> bool {
    exists|i: int| 0 <= i < t.len() && #[trigger] utf8_len(t.take(i)) == b
}

/// The text between the braces of `"Name { ... }"`, as `parse_debug_fields`
/// cuts it: from the byte after the first `{` of the whole text (counted
/// in the whole text) to the closing `}` of the trimmed text.
pub open spec fn braced_inner(s: Seq<char>) -> Option<Seq<char>> {
    let k = first_of(s, '{', 0);
    let t = trim(s);
    if k >= s.len() || t.len() == 0 || t.last() != '}' {
        None
    } else {
        let b = utf8_len(s.take(k)) + 1;
        let ci = choose|i: int| 0 <= i < t.len() && #[trigger] utf8_len(t.take(i)) == b;
        Some(trim(t.subrange(ci, t.len() - 1)))
    }
}

/// The named fields of a struct's `Debug` text `"Name { a: 1, b: 2 }"`.
pub open spec fn debug_fields(s: Seq<char>) -> Seq<(Seq<char>, Seq<char>)> {
    match braced_inner(s) {
        None => seq![],
        Some(inner) => if inner.len() == 0 {
            seq![]
        } else {
            fields_of(segments(inner))
        },
    }
}

/// The text can be cut as `parse_debug_fields` cuts it: when it has a `{`
/// and its trimmed text ends in `}`, the byte after that `{` falls between
/// characters of the trimmed text, before its closing `}`.
pub open spec fn debug_cut_ok(s: Seq<char>) -> bool {
    let k = first_of(s, '{', 0);
    let t = trim(s);
    k < s.len() && t.len() > 0 && t.last() == '}' ==> boundary_before_last(
        t,
        (utf8_len(s.take(k)) + 1) as int,
    )
}

/// The fields of the trimmed text `v[lo..hi]`, split at commas outside
/// brackets.
fn split_fields(v: &Vec<char>, lo: usize, hi: usize) -> (r: Vec<(String, String)>)
    requires
        lo <= hi <= v@.len(),
        hi - lo < 0x7fff_ffff,
    ensures
        r@.len() == fields_of(segments(v@.subrange(lo as int, hi as int))).len(),
        forall|j: int|
            0 <= j < r@.len() ==> (#[trigger] r@[j]).0@ == fields_of(
                segments(v@.subrange(lo as int, hi as int)),
            )[j].0 && r@[j].1@ == fields_of(segments(v@.subrange(lo as int, hi as int)))[j].1,
{
    let ghost inner = v@.subrange(lo as int, hi as int);
    let ghost mut done: Seq<Seq<char>> = seq![];
    let mut fields: Vec<(String, String)> = Vec::new();
    let mut depth: i32 = 0;
    let mut start = lo;
    let mut i = lo;
    proof {
        assert(inner.skip(0) =~= inner);
        assert(done + segments(inner) =~= segments(inner));
    }
    while i < hi
        invariant
            lo <= start <= i <= hi <= v@.len(),
            hi - lo < 0x7fff_ffff,
            inner == v@.subrange(lo as int, hi as int),
            depth == depth_at(inner, i - lo),
            depth_at(inner, start - lo) == 0,
            segments(inner) == done + segments(inner.skip(start - lo)),
            first_top(inner.skip(start - lo), ',', 0) == first_top(
                inner.skip(start - lo),
                ',',
                i - start,
            ),
            fields@.len() == fields_of(done).len(),
            forall|j: int|
                0 <= j < fields@.len() ==> (#[trigger] fields@[j]).0@ == fields_of(done)[j].0
                    && fields@[j].1@ == fields_of(done)[j].1,
        decreases hi - i,
    {
        let ghost t = inner.skip(start - lo);
        proof {
            lemma_depth_bound(inner, i - lo);
            lemma_depth_skip(inner, start - lo, i - start);
            assert(inner[i - lo] == v@[i as int]);
            assert(t[i - start] == v@[i as int]);
        }
        if v[i] == ',' && depth == 0 {
            proof {
                assert(first_top(t, ',', i - start) == i - start);
                lemma_first_top_bounds(t, ',', 0);
                let k = i - start;
                assert(t.take(k) =~= v@.subrange(start as int, i as int));
                assert(t.skip(k + 1) =~= inner.skip(i - lo + 1));
                assert(segments(t) == seq![t.take(k)] + segments(t.skip(k + 1)));
                assert(depth_at(inner, i - lo + 1) == 0);
            }
            let (a, b) = trim_range(v, start, i);
            let f = field_in(v, a, b);
            let ghost before = fields@;
            let ghost seg = v@.subrange(start as int, i as int);
            let ghost fd = fields_of(done);
            proof {
                lemma_fields_of_add(done, seq![seg]);
                assert(seq![seg].drop_first() =~= Seq::<Seq<char>>::empty());
                assert(fields_of(Seq::<Seq<char>>::empty()) == Seq::<(Seq<char>, Seq<char>)>::empty());
                assert(seq![seg][0] == seg);
            }
            match f {
                Some(p) => {
                    fields.push(p);
                    proof {
                        let q = field_of(trim(seg)).unwrap();
                        assert(fields_of(seq![seg]) == seq![q] + fields_of(seq![seg].drop_first()));
                        assert(fields_of(done + seq![seg]) =~= fd + seq![q]);
                        assert forall|j: int| 0 <= j < fields@.len() implies (#[trigger] fields@[j]).0@
                            == fields_of(done + seq![seg])[j].0 && fields@[j].1@ == fields_of(done + seq![seg])[j].1 by {
                            if j < before.len() {
                                assert(fields@[j] == before[j]);
                            }
                        }
                    }
                },
                None => {
                    proof {
                        assert(fields_of(seq![seg]) == fields_of(seq![seg].drop_first()));
                        assert(fields_of(done + seq![seg]) =~= fd);
                    }
                },
            }
            proof {
                done = done + seq![seg];
                assert(segments(inner) =~= done + segments(inner.skip(i - lo + 1)));
                lemma_first_top_bounds(inner.skip(i - lo + 1), ',', 0);
            }
            start = i + 1;
        }
        depth = step_depth(depth, v[i]);
        i = i + 1;
    }
    let ghost t = inner.skip(start - lo);
    proof {
        lemma_first_top_bounds(t, ',', 0);
        assert(first_top(t, ',', 0) >= t.len());
        assert(segments(t) == seq![t]);
        assert(t =~= v@.subrange(start as int, hi as int));
    }
    let (a, b) = trim_range(v, start, hi);
    let ghost before = fields@;
    proof {
        lemma_fields_of_add(done, seq![t]);
        reveal_with_fuel(fields_of, 2);
        assert(seq![t].drop_first() =~= Seq::<Seq<char>>::empty());
    }
    if a < b {
        let f = field_in(v, a, b);
        match f {
            Some(p) => {
                fields.push(p);
            },
            None => {},
        }
    } else {
        proof {
            assert(trim(t).len() == 0);
            lemma_first_top_bounds(trim(t), ':', 0);
        }
    }
    proof {
        assert forall|j: int| 0 <= j < fields@.len() implies (#[trigger] fields@[j]).0@ == fields_of(
            segments(inner),
        )[j].0 && fields@[j].1@ == fields_of(segments(inner))[j].1 by {
            if j < before.len() {
                assert(fields@[j] == before[j]);
            }
        }
    }
    fields
}

/// Where `parse_debug_fields` cuts `v`: `None` when the cut falls inside a
/// character (the text cannot be read), else the bounds of the trimmed
/// text between the braces, if the text is braced.
fn brace_cut(v: &Vec<char>) -> (r: Option<Option<(usize, usize)>>)
    requires
        v@.len() < 0x7fff_ffff,
    ensures
        r is None <==> !debug_cut_ok(v@),
        r matches Some(x) ==> (x is None <==> braced_inner(v@) is None),
        r matches Some(Some(p)) ==> p.0 <= p.1 <= v@.len() && braced_inner(v@) == Some(
            v@.subrange(p.0 as int, p.1 as int),
        ),
{
    let ghost s = v@;
    let n = v.len();
    let mut k: usize = 0;
    let mut bytes: u64 = 0;
    while k < n && v[k] != '{'
        invariant
            k <= n == v@.len(),
            n < 0x7fff_ffff,
            s == v@,
            first_of(s, '{', 0) == first_of(s, '{', k as int),
            bytes == utf8_len(s.take(k as int)),
            bytes <= 4 * k,
        decreases n - k,
    {
        proof {
            assert(s.take(k + 1).drop_last() =~= s.take(k as int));
        }
        bytes = bytes + char_width(v[k]);
        k = k + 1;
    }
    proof {
        assert(s.subrange(0, n as int) =~= s);
    }
    if k == n {
        return Some(None);
    }
    let (ta, tb) = trim_range(v, 0, n);
    let ghost t = trim(s);
    proof {
        assert(t =~= v@.subrange(ta as int, tb as int));
    }
    if ta == tb || v[tb - 1] != '}' {
        return Some(None);
    }
    let target = bytes + 1;
    let mut ci: usize = 0;
    let mut acc: u64 = 0;
    while ci < tb - ta && acc < target
        invariant
            ta < tb <= n == v@.len(),
            n < 0x7fff_ffff,
            t == v@.subrange(ta as int, tb as int),
            ci <= tb - ta,
            acc == utf8_len(t.take(ci as int)),
            acc <= 4 * ci,
            target <= 4 * n + 1,
            ci > 0 ==> utf8_len(t.take(ci - 1)) < target,
        decreases tb - ta - ci,
    {
        proof {
            assert(t.take(ci + 1).drop_last() =~= t.take(ci as int));
            assert(t[ci as int] == v@[ta + ci]);
        }
        acc = acc + char_width(v[ta + ci]);
        ci = ci + 1;
    }
    if !(acc == target && ci < tb - ta) {
        proof {
            assert(!boundary_before_last(t, target as int)) by {
                if boundary_before_last(t, target as int) {
                    let w = choose|i: int| 0 <= i < t.len() && #[trigger] utf8_len(t.take(i)) == target;
                    if acc < target {
                        lemma_utf8_len_grows(t, w, ci as int);
                    } else if acc > target {
                        if w < ci {
                            lemma_utf8_len_grows(t, w, ci - 1);
                        } else {
                            lemma_utf8_len_grows(t, ci as int, w);
                        }
                    } else {
                        lemma_utf8_len_grows(t, w, ci as int);
                    }
                }
            }
        }
        return None;
    }
    proof {
        assert(boundary_before_last(t, target as int)) by {
            assert(utf8_len(t.take(ci as int)) == target);
        }
        let w = choose|i: int| 0 <= i < t.len() && #[trigger] utf8_len(t.take(i)) == target;
        if w < ci {
            lemma_utf8_len_grows(t, w + 1, ci as int);
            lemma_utf8_len_grows(t, w, w + 1);
        } else if w > ci {
            lemma_utf8_len_grows(t, ci + 1, w);
            lemma_utf8_len_grows(t, ci as int, ci + 1);
        }
        assert(w == ci);
    }
    let (ia, ib) = trim_range(v, ta + ci, tb - 1);
    proof {
        assert(t.subrange(ci as int, t.len() - 1) =~= v@.subrange(ta + ci, tb - 1));
    }
    Some(Some((ia, ib)))
}

/// Whether `parse_debug_fields` can read the text: it is shorter than
/// 2^31 - 1 characters, and its braces can be cut between characters.
pub fn debug_text_ok(s: &str) -> (r: bool)
    ensures
        r == (s@.len() < 0x7fff_ffff && debug_cut_ok(s@)),
{
    let v = chars_of(s);
    if v.len() >= 0x7fff_ffff {
        return false;
    }
    brace_cut(&v).is_some()
}

/// Parse a `Debug` text like `TypeName { field1: val1, field2: val2 }` into
/// its `(field_name, value)` pairs. Texts that are not a struct with named
/// fields (tuple structs, primitives, enums) give no pairs.
pub fn parse_debug_fields(debug_str: &str) -> (r: Vec<(String, String)>)
    requires
        debug_str@.len() < 0x7fff_ffff,
        debug_cut_ok(debug_str@),
    ensures
        r@.len() == debug_fields(debug_str@).len(),
        forall|j: int|
            0 <= j < r@.len() ==> (#[trigger] r@[j]).0@ == debug_fields(debug_str@)[j].0 && r@[j].1@
                == debug_fields(debug_str@)[j].1,
{
    let v = chars_of(debug_str);
    match brace_cut(&v) {
        Some(Some((ia, ib))) => {
            if ia == ib {
                Vec::new()
            } else {
                split_fields(&v, ia, ib)
            }
        },
        _ => Vec::new(),
    }
}

/// The part of a `Debug` text shown in a preview: from its first `{`, or
/// all of it when it has none.
pub open spec fn preview_part(s: Seq<char>) -> Seq<char> {
    let k = first_of(s, '{', 0);
    if k < s.len() {
        s.skip(k)
    } else {
        s
    }
}

/// The preview of a `Debug` text cut to `max_len` characters: the part
/// shown, whole when it fits, else its first `max_len` characters and an
/// ellipsis.
pub open spec fn preview_of(s: Seq<char>, max_len: nat) -> Seq<char> {
    let p = preview_part(s);
    if p.len() <= max_len {
        p
    } else {
        p.take(max_len as int).push('\u{2026}')
    }
}

/// Where the part of `v` shown in a preview starts.
fn preview_start(v: &Vec<char>) -> (r: usize)
    ensures
        r <= v@.len(),
        v@.subrange(r as int, v@.len() as int) == preview_part(v@),
{
    let ghost s = v@;
    let n = v.len();
    let mut k: usize = 0;
    while k < n && v[k] != '{'
        invariant
            k <= n == v@.len(),
            s == v@,
            first_of(s, '{', 0) == first_of(s, '{', k as int),
        decreases n - k,
    {
        k = k + 1;
    }
    let from = if k < n {
        k
    } else {
        0
    };
    proof {
        assert(preview_part(s) =~= v@.subrange(from as int, n as int));
    }
    from
}

/// A compact preview of a `Debug` value, cut to `max_len` characters.
pub fn compact_preview(debug_str: &str, max_len: usize) -> (r: String)
    ensures
        r@ == preview_of(debug_str@, max_len as nat),
{
    let v = chars_of(debug_str);
    let from = preview_start(&v);
    let n = v.len();
    if n - from <= max_len {
        string_of(&v, from, n)
    } else {
        let mut out = string_of(&v, from, from + max_len);
        crate::names::push_char(&mut out, '\u{2026}');
        proof {
            assert(v@.subrange(from as int, (from + max_len) as int) =~= preview_part(v@).take(
                max_len as int,
            ));
        }
        out
    }
}

} // verus!
