//! Short display names taken from fully qualified Rust paths.
use vstd::prelude::*;

verus! {

/// The characters of a string slice.
pub fn chars_of(s: &str) -> (r: Vec<char>)
    ensures
        r@ == s@,
{
    let mut v: Vec<char> = Vec::new();
    for c in it: s.chars()
        invariant
            v@ == it.seq().take(it.index() as int),
    {
        v.push(c);
    }
    v
}

/// Appends a character to a string (`String::push`).
#[verifier::external_body]
pub(crate) fn push_char(s: &mut String, c: char)
    ensures
        final(s)@ == old(s)@.push(c),
{
    s.push(c);
}

/// The string made of `v[from..to]`.
pub fn string_of(v: &Vec<char>, from: usize, to: usize) -> (r: String)
    requires
        from <= to <= v@.len(),
    ensures
        r@ == v@.subrange(from as int, to as int),
{
    let mut r = String::new();
    let mut i = from;
    while i < to
        invariant
            from <= i <= to <= v@.len(),
            r@ == v@.subrange(from as int, i as int),
        decreases to - i,
    {
        push_char(&mut r, v[i]);
        i = i + 1;
        assert(r@ =~= v@.subrange(from as int, i as int));
    }
    r
}

/// `needle` occurs in `hay` at position `i`.
pub open spec fn occurs_at(hay: Seq<char>, needle: Seq<char>, i: int) -> bool {
    0 <= i && i + needle.len() <= hay.len() && hay.subrange(i, i + needle.len()) == needle
}

/// `needle` occurs somewhere in `hay`.
pub open spec fn occurs_in(hay: Seq<char>, needle: Seq<char>) -> bool {
    exists|i: int| #[trigger] occurs_at(hay, needle, i)
}

/// Whether `needle` occurs in `hay`.
pub fn find_in(hay: &Vec<char>, needle: &Vec<char>) -> (r: bool)
    ensures
        r == occurs_in(hay@, needle@),
{
    if needle.len() > hay.len() {
        proof {
            assert forall|i: int| !occurs_at(hay@, needle@, i) by {}
        }
        return false;
    }
    let hl = hay.len();
    let last = hl - needle.len();
    let mut i: usize = 0;
    while i <= last
        invariant
            last == hay@.len() - needle@.len(),
            hl == hay@.len(),
            forall|j: int| 0 <= j < i ==> !#[trigger] occurs_at(hay@, needle@, j),
        decreases last - i,
    {
        let mut k: usize = 0;
        let mut same = true;
        while k < needle.len()
            invariant
                i <= last,
                last == hay@.len() - needle@.len(),
                i + needle@.len() <= hay@.len(),
                hl == hay@.len(),
                k <= needle@.len(),
                same == forall|m: int| 0 <= m < k ==> hay@[i + m] == needle@[m],
            decreases needle@.len() - k,
        {
            if hay[i + k] != needle[k] {
                same = false;
            }
            k = k + 1;
        }
        if same {
            proof {
                assert(hay@.subrange(i as int, i + needle@.len()) =~= needle@);
                assert(occurs_at(hay@, needle@, i as int));
            }
            return true;
        }
        proof {
            assert(!occurs_at(hay@, needle@, i as int)) by {
                if occurs_at(hay@, needle@, i as int) {
                    let m = choose|m: int| 0 <= m < needle@.len() && hay@[i + m] != needle@[m];
                    assert(hay@.subrange(i as int, i + needle@.len())[m] == hay@[i + m]);
                }
            }
        }
        if i == last {
            proof {
                assert forall|j: int| !occurs_at(hay@, needle@, j) by {}
            }
            return false;
        }
        i = i + 1;
    }
    false
}

/// Where the last `::`-separated segment of `s[..j]` starts.
pub open spec fn segment_start(s: Seq<char>, j: int) -> int
    decreases j,
{
    if j < 2 {
        0
    } else if s[j - 2] == ':' && s[j - 1] == ':' {
        j
    } else {
        segment_start(s, j - 1)
    }
}

/// The text after the last `::`, or the whole text when there is none.
pub open spec fn last_segment(s: Seq<char>) -> Seq<char> {
    s.skip(segment_start(s, s.len() as int))
}

proof fn lemma_segment_start_bounds(s: Seq<char>, j: int)
    requires
        0 <= j <= s.len(),
    ensures
        0 <= segment_start(s, j) <= j,
    decreases j,
{
    if j >= 2 && !(s[j - 2] == ':' && s[j - 1] == ':') {
        lemma_segment_start_bounds(s, j - 1);
    }
}

/// Position after the last `::` in `v`, or 0.
fn segment_start_of(v: &Vec<char>) -> (r: usize)
    ensures
        r == segment_start(v@, v@.len() as int),
{
    let mut j = v.len();
    while j >= 2
        invariant
            j <= v@.len(),
            segment_start(v@, v@.len() as int) == segment_start(v@, j as int),
        decreases j,
    {
        if v[j - 2] == ':' && v[j - 1] == ':' {
            return j;
        }
        j = j - 1;
    }
    0
}

/// The last `::`-separated segment of a type path, e.g. `my_game::Position`
/// gives `Position`.
pub fn short_type_name(full: &str) -> (r: String)
    ensures
        r@ == last_segment(full@),
{
    let v = chars_of(full);
    let start = segment_start_of(&v);
    proof {
        lemma_segment_start_bounds(v@, v@.len() as int);
    }
    string_of(&v, start, v.len())
}

/// The short name shown for a system: the last `::`-separated segment of
/// its type path, or `<closure>` when that segment names a closure.
pub fn short_system_name(full: &str) -> (r: String)
    ensures
        r@ == if occurs_in(last_segment(full@), "closure"@) {
            "<closure>"@
        } else {
            last_segment(full@)
        },
{
    let v = chars_of(full);
    let start = segment_start_of(&v);
    proof {
        lemma_segment_start_bounds(v@, v@.len() as int);
    }
    let name = string_of(&v, start, v.len());
    let seg = chars_of(name.as_str());
    let needle = chars_of("closure");
    if find_in(&seg, &needle) {
        "<closure>".to_owned()
    } else {
        name
    }
}

} // verus!
