//! Character-level rules: whitespace, trimming and searching.
use vstd::prelude::*;

verus! {

/// The characters that `char::is_whitespace` accepts (Unicode `White_Space`).
pub open spec fn is_ws_spec(c: char) -> bool {
    c == '\t' || c == '\n' || c == '\u{0B}' || c == '\u{0C}' || c == '\r' || c == ' '
        || c == '\u{85}' || c == '\u{A0}' || c == '\u{1680}'
        || ('\u{2000}' as u32 <= c as u32 && c as u32 <= '\u{200A}' as u32)
        || c == '\u{2028}' || c == '\u{2029}' || c == '\u{202F}' || c == '\u{205F}'
        || c == '\u{3000}'
}

/// Whether `c` is Unicode whitespace.
pub fn is_ws(c: char) -> (r: bool)
    ensures
        r == is_ws_spec(c),
{
    let u = c as u32;
    c == '\t' || c == '\n' || c == '\u{0B}' || c == '\u{0C}' || c == '\r' || c == ' '
        || c == '\u{85}' || c == '\u{A0}' || c == '\u{1680}'
        || (0x2000u32 <= u && u <= 0x200Au32)
        || c == '\u{2028}' || c == '\u{2029}' || c == '\u{202F}' || c == '\u{205F}'
        || c == '\u{3000}'
}

/// `s` without its leading whitespace.
pub open spec fn trim_start_spec(s: Seq<char>) -> Seq<char>
    decreases s.len(),
{
    if s.len() > 0 && is_ws_spec(s[0]) {
        trim_start_spec(s.drop_first())
    } else {
        s
    }
}

/// `s` without its trailing whitespace.
pub open spec fn trim_end_spec(s: Seq<char>) -> Seq<char>
    decreases s.len(),
{
    if s.len() > 0 && is_ws_spec(s.last()) {
        trim_end_spec(s.drop_last())
    } else {
        s
    }
}

/// `s` without its trailing commas.
pub open spec fn trim_commas_spec(s: Seq<char>) -> Seq<char>
    decreases s.len(),
{
    if s.len() > 0 && s.last() == ',' {
        trim_commas_spec(s.drop_last())
    } else {
        s
    }
}

/// An identifier field cleaned up: surrounding whitespace trimmed, then
/// trailing commas removed.
pub open spec fn clean_spec(s: Seq<char>) -> Seq<char> {
    trim_commas_spec(trim_end_spec(trim_start_spec(s)))
}

/// `i` is the first position of `c` in `s`.
pub open spec fn is_first_char(s: Seq<char>, c: char, i: int) -> bool {
    0 <= i < s.len() && s[i] == c && forall|j: int| 0 <= j < i ==> s[j] != c
}

/// The first position of `c` in `s`, or -1 when there is none.
pub open spec fn first_char_spec(s: Seq<char>, c: char) -> int {
    if exists|i: int| is_first_char(s, c, i) {
        choose|i: int| is_first_char(s, c, i)
    } else {
        -1
    }
}

/// `s` holds `...` at position `i`.
pub open spec fn dots_at(s: Seq<char>, i: int) -> bool {
    0 <= i && i + 3 <= s.len() && s[i] == '.' && s[i + 1] == '.' && s[i + 2] == '.'
}

/// `i` is the first position of `...` in `s`.
pub open spec fn is_first_dots(s: Seq<char>, i: int) -> bool {
    dots_at(s, i) && forall|j: int| 0 <= j < i ==> !dots_at(s, j)
}

/// The first position of `...` in `s`, or -1 when there is none.
pub open spec fn first_dots_spec(s: Seq<char>) -> int {
    if exists|i: int| is_first_dots(s, i) {
        choose|i: int| is_first_dots(s, i)
    } else {
        -1
    }
}

/// A first position of `c` is the one that `first_char_spec` names.
pub proof fn lemma_first_char_unique(s: Seq<char>, c: char, i: int)
    requires
        is_first_char(s, c, i),
    ensures
        first_char_spec(s, c) == i,
{
    let k = choose|k: int| is_first_char(s, c, k);
    assert(is_first_char(s, c, k));
    if k < i {
        assert(s[k] != c);
    } else if i < k {
        assert(s[i] != c);
    }
}

/// A first position of `...` is the one that `first_dots_spec` names.
pub proof fn lemma_first_dots_unique(s: Seq<char>, i: int)
    requires
        is_first_dots(s, i),
    ensures
        first_dots_spec(s) == i,
{
    let k = choose|k: int| is_first_dots(s, k);
    assert(is_first_dots(s, k));
    if k < i {
        assert(!dots_at(s, k));
    } else if i < k {
        assert(!dots_at(s, i));
    }
}

/// Finds the first `c` in `s`.
pub fn find_char(s: &Vec<char>, c: char) -> (r: Option<usize>)
    ensures
        match r {
            Some(i) => is_first_char(s@, c, i as int),
            None => forall|j: int| 0 <= j < s@.len() ==> s@[j] != c,
        },
        first_char_spec(s@, c) == match r {
            Some(i) => i as int,
            None => -1,
        },
{
    let mut i: usize = 0;
    while i < s.len()
        invariant
            i <= s@.len(),
            forall|j: int| 0 <= j < i ==> s@[j] != c,
        decreases s@.len() - i,
    {
        if s[i] == c {
            proof {
                lemma_first_char_unique(s@, c, i as int);
            }
            return Some(i);
        }
        i += 1;
    }
    proof {
        if exists|k: int| is_first_char(s@, c, k) {
            let k = choose|k: int| is_first_char(s@, c, k);
            assert(s@[k] != c);
        }
    }
    None
}

/// Finds the first `...` in `s[from..to]`, as a position relative to `from`.
pub fn find_dots(s: &Vec<char>, from: usize, to: usize) -> (r: Option<usize>)
    requires
        from <= to <= s@.len(),
    ensures
        first_dots_spec(s@.subrange(from as int, to as int)) == match r {
            Some(i) => i as int,
            None => -1,
        },
        r matches Some(i) ==> is_first_dots(s@.subrange(from as int, to as int), i as int),
{
    let ghost t = s@.subrange(from as int, to as int);
    let mut i: usize = 0;
    while 3 <= to - from && i <= to - from - 3
        invariant
            from <= to <= s@.len(),
            t == s@.subrange(from as int, to as int),
            forall|j: int| 0 <= j < i ==> !dots_at(t, j),
        decreases to - from - i,
    {
        if s[from + i] == '.' && s[from + i + 1] == '.' && s[from + i + 2] == '.' {
            assert(dots_at(t, i as int));
            proof {
                lemma_first_dots_unique(t, i as int);
            }
            return Some(i);
        }
        i += 1;
    }
    proof {
        if exists|k: int| is_first_dots(t, k) {
            let k = choose|k: int| is_first_dots(t, k);
            assert(!dots_at(t, k));
        }
    }
    None
}

/// Bounds `(a, b)` such that `s[a..b]` is `clean_spec(s[from..to])`.
pub fn clean_bounds(s: &Vec<char>, from: usize, to: usize) -> (r: (usize, usize))
    requires
        from <= to <= s@.len(),
    ensures
        from <= r.0 <= r.1 <= to,
        s@.subrange(r.0 as int, r.1 as int) == clean_spec(s@.subrange(from as int, to as int)),
{
    let ghost f = s@.subrange(from as int, to as int);
    let mut a = from;
    while a < to && is_ws(s[a])
        invariant
            from <= a <= to <= s@.len(),
            trim_start_spec(f) == trim_start_spec(s@.subrange(a as int, to as int)),
        decreases to - a,
    {
        assert(s@.subrange(a as int, to as int).drop_first() =~= s@.subrange(a + 1, to as int));
        a += 1;
    }
    let ghost g = s@.subrange(a as int, to as int);
    assert(trim_start_spec(f) == g);
    let mut b = to;
    while b > a && is_ws(s[b - 1])
        invariant
            from <= a <= b <= to <= s@.len(),
            trim_end_spec(g) == trim_end_spec(s@.subrange(a as int, b as int)),
        decreases b,
    {
        assert(s@.subrange(a as int, b as int).drop_last() =~= s@.subrange(a as int, b - 1));
        b -= 1;
    }
    let ghost h = s@.subrange(a as int, b as int);
    assert(trim_end_spec(g) == h);
    while b > a && s[b - 1] == ','
        invariant
            from <= a <= b <= to <= s@.len(),
            trim_commas_spec(h) == trim_commas_spec(s@.subrange(a as int, b as int)),
        decreases b,
    {
        assert(s@.subrange(a as int, b as int).drop_last() =~= s@.subrange(a as int, b - 1));
        b -= 1;
    }
    (a, b)
}

} // verus!
