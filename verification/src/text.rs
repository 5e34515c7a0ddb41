//! Character and string predicates used by the argument grammar, each with an
//! executable counterpart proved equal to it.
//!
//! Strings are modelled as `Seq<char>`; positions count characters, not bytes.

use vstd::prelude::*;
use vstd::string::StrSliceExecFns;
use vstd::string::StringExecFns;
use vstd::utf8::{encode_utf8, encode_utf8_decode_utf8};

verus! {

/// The dash that introduces flags and options.
pub open spec fn is_dash(c: char) -> bool {
    c == '-'
}

/// An ASCII decimal digit.
pub open spec fn is_digit(c: char) -> bool {
    0x30 <= c as u32 <= 0x39
}

/// A character with the Unicode `White_Space` property.
pub open spec fn is_blank(c: char) -> bool {
    let n = c as u32;
    ||| 0x09 <= n <= 0x0d
    ||| n == 0x20
    ||| n == 0x85
    ||| n == 0xa0
    ||| n == 0x1680
    ||| 0x2000 <= n <= 0x200a
    ||| n == 0x2028
    ||| n == 0x2029
    ||| n == 0x202f
    ||| n == 0x205f
    ||| n == 0x3000
}

/// The classes of characters whose runs the grammar measures.
pub enum CharClass {
    /// The dash.
    Dash,
    /// White space.
    Blank,
    /// Anything but white space.
    Solid,
}

impl CharClass {
    /// Whether `c` belongs to this class.
    pub open spec fn has(self, c: char) -> bool {
        match self {
            CharClass::Dash => is_dash(c),
            CharClass::Blank => is_blank(c),
            CharClass::Solid => !is_blank(c),
        }
    }
}

/// `k` is where the leading run of characters satisfying `p` ends in `s`:
/// everything before `k` satisfies `p`, and `s` stops at `k` or `s[k]` does not.
pub open spec fn ends_run(s: Seq<char>, p: CharClass, k: int) -> bool {
    &&& 0 <= k <= s.len()
    &&& forall|j: int| 0 <= j < k ==> p.has(#[trigger] s[j])
    &&& k < s.len() ==> !p.has(s[k])
}

/// The number of leading characters of `s` that satisfy `p`.
pub open spec fn run_len(s: Seq<char>, p: CharClass) -> int
    decreases s.len(),
{
    if s.len() > 0 && p.has(s[0]) {
        1 + run_len(s.drop_first(), p)
    } else {
        0
    }
}

/// `run_len` is the one position that ends the leading run.
pub proof fn lemma_run_len(s: Seq<char>, p: CharClass)
    ensures
        ends_run(s, p, run_len(s, p)),
        forall|k: int| ends_run(s, p, k) ==> k == run_len(s, p),
    decreases s.len(),
{
    if s.len() > 0 && p.has(s[0]) {
        let t = s.drop_first();
        lemma_run_len(t, p);
        let r = run_len(t, p);
        assert forall|j: int| 0 <= j < r + 1 implies p.has(#[trigger] s[j]) by {
            if j > 0 {
                assert(s[j] == t[j - 1]);
            }
        }
        if r + 1 < s.len() {
            assert(s[r + 1] == t[r]);
        }
        assert forall|k: int| ends_run(s, p, k) implies k == r + 1 by {
            assert(k > 0);
            assert forall|j: int| 0 <= j < k - 1 implies p.has(#[trigger] t[j]) by {
                assert(t[j] == s[j + 1]);
            }
            if k - 1 < t.len() {
                assert(t[k - 1] == s[k]);
            }
            assert(ends_run(t, p, k - 1));
        }
    } else {
        assert forall|k: int| ends_run(s, p, k) implies k == 0 by {
            if k > 0 {
                assert(p.has(s[0]));
            }
        }
    }
}

/// The number of trailing characters of `s` that satisfy `p`.
pub open spec fn tail_run_len(s: Seq<char>, p: CharClass) -> int {
    run_len(s.reverse(), p)
}

/// `s` without its leading dashes.
pub open spec fn strip_dashes(s: Seq<char>) -> Seq<char> {
    s.skip(run_len(s, CharClass::Dash))
}

/// `s` without leading and trailing white space.
pub open spec fn trimmed(s: Seq<char>) -> Seq<char> {
    let rest = s.skip(run_len(s, CharClass::Blank));
    rest.take(rest.len() - tail_run_len(rest, CharClass::Blank))
}

/// `i` is the position of the first `c` in `s`.
pub open spec fn is_first_at(s: Seq<char>, c: char, i: int) -> bool {
    &&& 0 <= i < s.len()
    &&& s[i] == c
    &&& forall|j: int| 0 <= j < i ==> #[trigger] s[j] != c
}

/// The position of the first `c` in `s`; meaningful where `s` contains `c`.
pub open spec fn first_at(s: Seq<char>, c: char) -> int {
    choose|i: int| is_first_at(s, c, i)
}

/// The first occurrence is unique, so any position found to be first is `first_at`.
pub proof fn lemma_first_at(s: Seq<char>, c: char, i: int)
    requires
        is_first_at(s, c, i),
    ensures
        first_at(s, c) == i,
        s.contains(c),
{
    let k = first_at(s, c);
    assert(is_first_at(s, c, k));
    if k < i {
        assert(s[k] != c);
    }
    if i < k {
        assert(s[i] != c);
    }
}

/// The white-space separated words of `s`, in order.
pub open spec fn words(s: Seq<char>) -> Seq<Seq<char>>
    decreases s.len(),
{
    let lead = run_len(s, CharClass::Blank);
    let rest = s.skip(lead);
    let size = run_len(rest, CharClass::Solid);
    if 0 <= lead < s.len() && 0 < size <= rest.len() {
        seq![rest.take(size)] + words(rest.skip(size))
    } else {
        Seq::empty()
    }
}

/// What the words of `s` from `mark` on are, given where the first of them
/// lies: after the white space from `mark` to `begin`, and up to `end`;
/// with `begin` at the end of `s` there is none.
pub proof fn lemma_words(s: Seq<char>, mark: int, begin: int, end: int)
    requires
        0 <= mark <= begin <= end <= s.len(),
        forall|j: int| mark <= j < begin ==> CharClass::Blank.has(#[trigger] s[j]),
        forall|j: int| begin <= j < end ==> CharClass::Solid.has(#[trigger] s[j]),
        end < s.len() ==> CharClass::Blank.has(s[end]),
        begin < s.len() ==> CharClass::Solid.has(s[begin]),
    ensures
        words(s.skip(mark)) == if begin < end {
            seq![s.subrange(begin, end)] + words(s.skip(end))
        } else {
            Seq::empty()
        },
{
    let here = s.skip(mark);
    assert(ends_run(here, CharClass::Blank, begin - mark)) by {
        assert forall|j: int| 0 <= j < begin - mark implies CharClass::Blank.has(
            #[trigger] here[j],
        ) by {
            assert(here[j] == s[mark + j]);
        }
        if begin - mark < here.len() {
            assert(here[begin - mark] == s[begin]);
        }
    }
    lemma_run_len(here, CharClass::Blank);
    let rest = here.skip(begin - mark);
    assert(rest =~= s.skip(begin));
    assert(ends_run(rest, CharClass::Solid, end - begin)) by {
        assert forall|j: int| 0 <= j < end - begin implies CharClass::Solid.has(
            #[trigger] rest[j],
        ) by {
            assert(rest[j] == s[begin + j]);
        }
        if end - begin < rest.len() {
            assert(rest[end - begin] == s[end]);
        }
    }
    lemma_run_len(rest, CharClass::Solid);
    if begin < end {
        assert(rest.take(end - begin) =~= s.subrange(begin, end));
        assert(rest.skip(end - begin) =~= s.skip(end));
    } else {
        assert(words(here) =~= Seq::<Seq<char>>::empty());
    }
}

/// Whether `c` is white space.
pub fn is_whitespace(c: char) -> (b: bool)
    ensures
        b == is_blank(c),
{
    let n: u32 = c as u32;
    (0x09 <= n && n <= 0x0d) || n == 0x20 || n == 0x85 || n == 0xa0 || n == 0x1680 || (0x2000 <= n
        && n <= 0x200a) || n == 0x2028 || n == 0x2029 || n == 0x202f || n == 0x205f || n == 0x3000
}

/// Whether `c` is an ASCII decimal digit.
pub fn is_ascii_digit(c: char) -> (b: bool)
    ensures
        b == is_digit(c),
{
    let n: u32 = c as u32;
    0x30 <= n && n <= 0x39
}

/// Whether two strings hold the same characters.
pub fn same_text(a: &str, b: &str) -> (r: bool)
    ensures
        r == (a@ == b@),
{
    let x = a.as_bytes();
    let y = b.as_bytes();
    proof {
        encode_utf8_decode_utf8(a@);
        encode_utf8_decode_utf8(b@);
    }
    let n: usize = x.len();
    if n != y.len() {
        return false;
    }
    let mut i: usize = 0;
    while i < n
        invariant
            i <= n,
            n == x@.len(),
            n == y@.len(),
            x@ == encode_utf8(a@),
            y@ == encode_utf8(b@),
            forall|j: int| 0 <= j < i ==> x@[j] == y@[j],
        decreases n - i,
    {
        if x[i] != y[i] {
            return false;
        }
        i = i + 1;
    }
    assert(x@ =~= y@);
    true
}

/// The position of the first `c` in `s`, if there is one.
pub fn find_char(s: &str, c: char) -> (r: Option<usize>)
    ensures
        match r {
            Some(i) => is_first_at(s@, c, i as int) && i as int == first_at(s@, c) && s@.contains(c),
            None => !s@.contains(c),
        },
{
    let n: usize = s.unicode_len();
    let mut i: usize = 0;
    for x in it: s.chars()
        invariant
            i == it.index(),
            it.seq() == s@,
            n == s@.len(),
            forall|j: int| 0 <= j < i ==> #[trigger] s@[j] != c,
    {
        if x == c {
            proof {
                lemma_first_at(s@, c, i as int);
            }
            return Some(i);
        }
        i = i + 1;
    }
    None
}

/// The number of leading dashes of `s`.
pub fn count_dashes(s: &str) -> (k: usize)
    ensures
        k as int == run_len(s@, CharClass::Dash),
        k <= s@.len(),
{
    let n: usize = s.unicode_len();
    let mut i: usize = 0;
    for x in it: s.chars()
        invariant
            i == it.index(),
            it.seq() == s@,
            n == s@.len(),
            forall|j: int| 0 <= j < i ==> CharClass::Dash.has(#[trigger] s@[j]),
    {
        if x != '-' {
            proof {
                assert(ends_run(s@, CharClass::Dash, i as int));
                lemma_run_len(s@, CharClass::Dash);
            }
            return i;
        }
        i = i + 1;
    }
    proof {
        assert(ends_run(s@, CharClass::Dash, i as int));
        lemma_run_len(s@, CharClass::Dash);
    }
    i
}

/// `s` without leading and trailing white space.
pub fn trim(s: &str) -> (r: String)
    ensures
        r@ == trimmed(s@),
{
    let n: usize = s.unicode_len();
    // Where the first character that is no white space stands, and where
    // the last one ends; both at the cursor while none was met.
    let mut seen = false;
    let mut from: usize = 0;
    let mut to: usize = 0;
    let mut i: usize = 0;
    for x in it: s.chars()
        invariant
            i == it.index(),
            it.seq() == s@,
            n == s@.len(),
            from <= to <= i,
            !seen ==> from == i,
            seen ==> from < to && !CharClass::Blank.has(s@[from as int]) && !CharClass::Blank.has(
                s@[to - 1],
            ),
            forall|j: int| 0 <= j < from ==> CharClass::Blank.has(#[trigger] s@[j]),
            forall|j: int| to <= j < i ==> CharClass::Blank.has(#[trigger] s@[j]),
    {
        if !is_whitespace(x) {
            if !seen {
                from = i;
                seen = true;
            }
            to = i + 1;
        } else if !seen {
            from = i + 1;
            to = i + 1;
        }
        i = i + 1;
    }
    proof {
        let rest = s@.skip(from as int);
        let back = rest.reverse();
        let k = n - to;
        assert(ends_run(s@, CharClass::Blank, from as int));
        lemma_run_len(s@, CharClass::Blank);
        assert forall|j: int| 0 <= j < k implies CharClass::Blank.has(#[trigger] back[j]) by {
            assert(back[j] == s@[n - 1 - j]);
        }
        if k < back.len() {
            assert(back[k] == s@[to - 1]);
        }
        assert(ends_run(back, CharClass::Blank, k));
        lemma_run_len(back, CharClass::Blank);
        assert(s@.subrange(from as int, to as int) =~= rest.take(rest.len() - k));
    }
    String::from_str(s.substring_char(from, to))
}

/// The white-space separated words of `s`, in order.
pub fn split_words(s: &str) -> (out: Vec<String>)
    ensures
        out.deep_view() == words(s@),
{
    let n: usize = s.unicode_len();
    let mut out: Vec<String> = Vec::new();
    // Where what was not yet split begins, and where its first word does.
    let mut mark: usize = 0;
    let mut begin: usize = 0;
    let mut inside = false;
    let mut i: usize = 0;
    assert(s@.skip(0) =~= s@);
    assert(out.deep_view() =~= Seq::<Seq<char>>::empty());
    for x in it: s.chars()
        invariant
            i == it.index(),
            it.seq() == s@,
            n == s@.len(),
            mark <= begin <= i,
            !inside ==> begin == i,
            inside ==> begin < i,
            forall|j: int| mark <= j < begin ==> CharClass::Blank.has(#[trigger] s@[j]),
            forall|j: int| begin <= j < i ==> CharClass::Solid.has(#[trigger] s@[j]),
            out.deep_view() + words(s@.skip(mark as int)) == words(s@),
    {
        if is_whitespace(x) {
            if inside {
                let ghost before = out.deep_view();
                proof {
                    lemma_words(s@, mark as int, begin as int, i as int);
                }
                out.push(String::from_str(s.substring_char(begin, i)));
                proof {
                    let word = s@.subrange(begin as int, i as int);
                    assert(out.deep_view() =~= before.push(word));
                    assert(before.push(word) + words(s@.skip(i as int)) =~= before + (seq![word]
                        + words(s@.skip(i as int))));
                }
                mark = i;
                inside = false;
            }
            begin = i + 1;
        } else {
            inside = true;
        }
        i = i + 1;
    }
    proof {
        lemma_words(s@, mark as int, begin as int, n as int);
    }
    if inside {
        let ghost before = out.deep_view();
        out.push(String::from_str(s.substring_char(begin, n)));
        proof {
            let word = s@.subrange(begin as int, n as int);
            assert(s@.skip(n as int) =~= Seq::<char>::empty());
            assert(words(s@.skip(n as int)) =~= Seq::<Seq<char>>::empty());
            assert(out.deep_view() =~= before.push(word));
            assert(before.push(word) =~= before + (seq![word] + Seq::<Seq<char>>::empty()));
        }
    } else {
        proof {
            assert(out.deep_view() + Seq::<Seq<char>>::empty() =~= out.deep_view());
        }
    }
    out
}

} // verus!
