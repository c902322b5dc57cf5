//! Splitting a command into its pattern and replacement.
use vstd::prelude::*;
use vstd::string::*;
use crate::error::ErrorKind;

verus! {

/// Number of slots of a [`PsuedoVec`].
pub const PSUEDO_VEC_CAPACITY: usize = 32;

/// The scanner stops once it has found this many delimiters.
pub const MAX_BOUNDARIES: usize = 4;

/// A vector of fixed capacity whose slots all hold a value from the start.
#[derive(Clone, Copy, Debug, PartialEq)]
pub struct PsuedoVec<T: Copy> {
    data: [T; 32],
    length: usize,
}

impl<T: Copy> View for PsuedoVec<T> {
    type V = Seq<T>;

    /// The items pushed so far, in order.
    closed spec fn view(&self) -> Seq<T> {
        self.data@.subrange(0, self.length as int)
    }
}

impl<T: Copy> PsuedoVec<T> {
    /// All the slots, pushed or not.
    pub closed spec fn slots(&self) -> Seq<T> {
        self.data@
    }

    /// The length fits in the slots.
    pub closed spec fn wf(&self) -> bool {
        &&& self.slots().len() == PSUEDO_VEC_CAPACITY
        &&& self.length <= PSUEDO_VEC_CAPACITY
    }

    /// An empty vector whose slots all hold `default`.
    pub fn new(default: T) -> (r: Self)
        ensures
            r.wf(),
            r.slots().len() == PSUEDO_VEC_CAPACITY,
            r@ == Seq::<T>::empty(),
            r.slots() == Seq::new(PSUEDO_VEC_CAPACITY as nat, |i: int| default),
    {
        broadcast use vstd::array::group_array_axioms;

        let r = PsuedoVec { data: [default; 32], length: 0 };
        assert(r@ =~= Seq::<T>::empty());
        assert(r.slots() =~= Seq::new(PSUEDO_VEC_CAPACITY as nat, |i: int| default));
        r
    }

    /// Puts `item` in the first free slot; there must be one.
    pub fn push(&mut self, item: T)
        requires
            old(self).wf(),
            old(self)@.len() < PSUEDO_VEC_CAPACITY,
        ensures
            final(self).wf(),
            final(self).slots().len() == PSUEDO_VEC_CAPACITY,
            final(self)@ == old(self)@.push(item),
            final(self).slots() == old(self).slots().update(old(self)@.len() as int, item),
    {
        broadcast use vstd::array::group_array_axioms;

        let ghost before = self@;
        self.data[self.length] = item;
        self.length += 1;
        assert(self@ =~= before.push(item));
    }

    pub fn len(&self) -> (r: usize)
        requires
            self.wf(),
        ensures
            r == self@.len(),
            self.slots().len() == PSUEDO_VEC_CAPACITY,
    {
        self.length
    }

    /// The slot at `index`: the item pushed there, or the initial value.
    pub fn index(&self, index: usize) -> (r: T)
        requires
            index < PSUEDO_VEC_CAPACITY,
        ensures
            self.slots().len() == PSUEDO_VEC_CAPACITY,
            r == self.slots()[index as int],
            self.wf() && index < self@.len() ==> r == self@[index as int],
    {
        self.data[index]
    }
}

/// Positions `i >= start` in `s` of the `/` characters that are not escaped.
/// `escaped` tells whether the character just before `start` escapes the next one.
/// A backslash escapes the character after it unless it is itself escaped, so
/// `\\` leaves no pending escape.
pub open spec fn scan(s: Seq<char>, start: int, escaped: bool) -> Seq<int>
    decreases s.len() - start,
{
    if start < 0 || start >= s.len() {
        Seq::<int>::empty()
    } else {
        let c = s[start];
        let here: Seq<int> = if c == '/' && !escaped {
            seq![start]
        } else {
            Seq::<int>::empty()
        };
        here + scan(s, start + 1, c == '\\' && !escaped)
    }
}

/// The unescaped delimiters of a command. The scan starts after the first
/// character, so the leading `/` of the `/s/` form is never one of them.
pub open spec fn delimiters(s: Seq<char>) -> Seq<int> {
    scan(s, 1, false)
}

/// Replaces, left to right, each two-character sequence `\c` by `c`.
pub open spec fn collapse(x: Seq<char>, c: char) -> Seq<char>
    decreases x.len(),
{
    if x.len() >= 2 && x[0] == '\\' && x[1] == c {
        seq![c] + collapse(x.subrange(2, x.len() as int), c)
    } else if x.len() >= 1 {
        seq![x[0]] + collapse(x.subrange(1, x.len() as int), c)
    } else {
        Seq::<char>::empty()
    }
}

/// Unescaping of a segment: first every `\/` becomes `/`, then, over that
/// result, every `\\` becomes `\`.
pub open spec fn unescape(x: Seq<char>) -> Seq<char> {
    collapse(collapse(x, '/'), '\\')
}

/// The boundaries of a command: its first [`MAX_BOUNDARIES`] delimiters;
/// then the text's length, unless the last delimiter found ends the text;
/// then, where that makes only two, one more just after the second.
pub open spec fn boundaries_of(s: Seq<char>) -> Seq<int> {
    let d = delimiters(s);
    let found = if d.len() > MAX_BOUNDARIES {
        d.take(MAX_BOUNDARIES as int)
    } else {
        d
    };
    let ended = if found.len() > 0 && found.last() == s.len() - 1 {
        found
    } else {
        found.push(s.len() as int)
    };
    if ended.len() == 2 {
        ended.push(ended[1] + 1)
    } else {
        ended
    }
}

/// The raw segments of a command, read between its three boundaries. Where the
/// third boundary is the end of the text (no delimiter closes the
/// replacement), the replacement is empty; where it lies past the end, or
/// the boundaries are not three, the command has no parts.
pub open spec fn raw_parts(s: Seq<char>) -> Option<(Seq<char>, Seq<char>)> {
    let b = boundaries_of(s);
    if b.len() != 3 || b[2] > s.len() {
        None
    } else if b[2] == s.len() {
        Some((s.subrange(b[0] + 1, b[1]), Seq::<char>::empty()))
    } else {
        Some((s.subrange(b[0] + 1, b[1]), s.subrange(b[1] + 1, b[2])))
    }
}

/// The pattern and replacement of a command, unescaped.
pub open spec fn command_parts(s: Seq<char>) -> Option<(Seq<char>, Seq<char>)> {
    match raw_parts(s) {
        Some((p, r)) => Some((unescape(p), unescape(r))),
        None => None,
    }
}

proof fn lemma_scan_bounds(s: Seq<char>, start: int, escaped: bool)
    requires
        0 <= start,
    ensures
        forall|k: int|
            0 <= k < scan(s, start, escaped).len() ==> start <= #[trigger] scan(s, start, escaped)[k]
                < s.len(),
        forall|k: int, l: int|
            0 <= k < l < scan(s, start, escaped).len() ==> #[trigger] scan(s, start, escaped)[k]
                < #[trigger] scan(s, start, escaped)[l],
    decreases s.len() - start,
{
    if start < s.len() {
        let next = s[start] == '\\' && !escaped;
        lemma_scan_bounds(s, start + 1, next);
        let rest = scan(s, start + 1, next);
        let all = scan(s, start, escaped);
        if s[start] == '/' && !escaped {
            assert(all =~= seq![start] + rest);
            assert forall|k: int| 0 <= k < all.len() implies start <= #[trigger] all[k] < s.len() by {
                if k > 0 {
                    assert(all[k] == rest[k - 1]);
                }
            }
            assert forall|k: int, l: int| 0 <= k < l < all.len() implies #[trigger] all[k]
                < #[trigger] all[l] by {
                assert(all[l] == rest[l - 1]);
                if k > 0 {
                    assert(all[k] == rest[k - 1]);
                }
            }
        } else {
            assert(all =~= rest);
        }
    }
}

/// The boundaries of `string`, as [`boundaries_of`] gives them.
pub fn get_boundaries(string: &str) -> (r: PsuedoVec<usize>)
    requires
        string@.len() < usize::MAX,
    ensures
        r.wf(),
        r@.len() == boundaries_of(string@).len(),
        forall|k: int| 0 <= k < r@.len() ==> r@[k] as int == boundaries_of(string@)[k],
{
    let n = string.unicode_len();
    let mut boundaries = PsuedoVec::new(0usize);
    let mut escaped = false;
    let mut i: usize = 1;
    let ghost found: Seq<int> = Seq::empty();
    proof {
        assert(delimiters(string@) =~= found + scan(string@, 1, false));
        lemma_scan_bounds(string@, 1, false);
    }
    while i < n && boundaries.len() < MAX_BOUNDARIES
        invariant
            n == string@.len(),
            n < usize::MAX,
            1 <= i,
            boundaries.wf(),
            boundaries@.len() == found.len(),
            found.len() <= MAX_BOUNDARIES,
            forall|k: int| 0 <= k < found.len() ==> boundaries@[k] as int == #[trigger] found[k],
            forall|k: int| 0 <= k < found.len() ==> #[trigger] found[k] < n,
            delimiters(string@) == found + scan(string@, i as int, escaped),
        decreases n - i,
    {
        let c = string.get_char(i);
        let ghost here: Seq<int> = if c == '/' && !escaped {
            seq![i as int]
        } else {
            Seq::<int>::empty()
        };
        let ghost rest = scan(string@, i + 1, c == '\\' && !escaped);
        proof {
            assert(scan(string@, i as int, escaped) == here + rest);
            assert(found + (here + rest) =~= (found + here) + rest);
        }
        if c == '/' && !escaped {
            boundaries.push(i);
            proof {
                found = found + here;
            }
        }
        escaped = c == '\\' && !escaped;
        i += 1;
    }
    proof {
        let d = delimiters(string@);
        if i >= n {
            assert(found + scan(string@, i as int, escaped) =~= found);
        } else {
            assert(found.len() == MAX_BOUNDARIES);
            assert(d.take(MAX_BOUNDARIES as int) =~= found);
        }
        let cut = if d.len() > MAX_BOUNDARIES {
            d.take(MAX_BOUNDARIES as int)
        } else {
            d
        };
        assert(cut =~= found);
    }
    let len = boundaries.len();
    let last_ends_text = if len == 0 {
        false
    } else {
        let last = boundaries.index(len - 1);
        assert(last as int == found[len - 1]);
        last + 1 == n
    };
    if !last_ends_text {
        boundaries.push(n);
        proof {
            found = found.push(n as int);
        }
    }
    if boundaries.len() == 2 {
        let second = boundaries.index(1);
        boundaries.push(second + 1);
        proof {
            found = found.push(second + 1);
        }
    }
    assert(found =~= boundaries_of(string@));
    boundaries
}

} // verus!

verus! {

/// The texts of a pair of string slices.
pub open spec fn str_views(p: (&str, &str)) -> (Seq<char>, Seq<char>) {
    (p.0@, p.1@)
}

/// The texts of a pair of strings.
pub open spec fn string_views(p: (String, String)) -> (Seq<char>, Seq<char>) {
    (p.0@, p.1@)
}

/// The raw pattern and replacement segments of `text`, or `None` when its
/// delimiters do not form a command.
pub fn split_text(text: &str) -> (r: Option<(&str, &str)>)
    requires
        text@.len() < usize::MAX,
    ensures
        match raw_parts(text@) {
            Some(parts) => r is Some && str_views(r->0) == parts,
            None => r is None,
        },
{
    let boundaries = get_boundaries(text);
    let n = text.unicode_len();
    proof {
        lemma_boundaries_ordered(text@);
    }
    if boundaries.len() != 3 {
        return None;
    }
    let first = boundaries.index(0);
    let second = boundaries.index(1);
    let third = boundaries.index(2);
    if third > n {
        None
    } else if third == n {
        let s1 = text.substring_char(first + 1, second);
        let s2 = text.substring_char(second, second);
        proof {
            assert(s2@ =~= Seq::<char>::empty());
        }
        Some((s1, s2))
    } else {
        let s1 = text.substring_char(first + 1, second);
        let s2 = text.substring_char(second + 1, third);
        Some((s1, s2))
    }
}

/// Three boundaries rise, and the second one lies within the text.
proof fn lemma_boundaries_ordered(s: Seq<char>)
    ensures
        boundaries_of(s).len() == 3 ==> 0 <= boundaries_of(s)[0] < boundaries_of(s)[1]
            < boundaries_of(s)[2] && boundaries_of(s)[1] <= s.len(),
{
    lemma_scan_bounds(s, 1, false);
    let d = delimiters(s);
    if d.len() >= 2 {
        assert(d[0] < d[1]);
    }
    if d.len() >= 3 {
        assert(d[1] < d[2]);
    }
    if d.len() >= 1 {
        assert(1 <= d[0] < s.len());
    }
}

/// Rewrites each `\c` of `s` to `c`, in one pass from the left; `lit` is `c` as text.
fn collapse_escapes(s: &str, c: char, lit: &str) -> (r: String)
    requires
        lit@ == seq![c],
    ensures
        r@ == collapse(s@, c),
{
    let n = s.unicode_len();
    let mut out = String::new();
    let mut i: usize = 0;
    proof {
        assert(s@.subrange(0, n as int) =~= s@);
    }
    while i < n
        invariant
            n == s@.len(),
            i <= n,
            lit@ == seq![c],
            collapse(s@, c) == out@ + collapse(s@.subrange(i as int, n as int), c),
        decreases n - i,
    {
        let ghost x = s@.subrange(i as int, n as int);
        let ch = s.get_char(i);
        if ch == '\\' && i + 1 < n && s.get_char(i + 1) == c {
            proof {
                assert(x.subrange(2, x.len() as int) =~= s@.subrange(i + 2, n as int));
                assert(out@ + (seq![c] + collapse(x.subrange(2, x.len() as int), c)) =~= (out@
                    + lit@) + collapse(s@.subrange(i + 2, n as int), c));
            }
            out.append(lit);
            i += 2;
        } else {
            let one = s.substring_char(i, i + 1);
            proof {
                assert(one@ =~= seq![x[0]]);
                assert(x.subrange(1, x.len() as int) =~= s@.subrange(i + 1, n as int));
                assert(out@ + (seq![x[0]] + collapse(x.subrange(1, x.len() as int), c)) =~= (out@
                    + one@) + collapse(s@.subrange(i + 1, n as int), c));
            }
            out.append(one);
            i += 1;
        }
    }
    proof {
        assert(out@ + collapse(s@.subrange(i as int, n as int), c) =~= out@);
    }
    out
}

/// A segment with `\/` turned into `/` and then `\\` into `\`.
pub fn unescape_segment(segment: &str) -> (r: String)
    ensures
        r@ == unescape(segment@),
{
    proof {
        reveal_strlit("/");
        reveal_strlit("\\");
        assert("/"@ =~= seq!['/']);
        assert("\\"@ =~= seq!['\\']);
    }
    let once = collapse_escapes(segment, '/', "/");
    collapse_escapes(once.as_str(), '\\', "\\")
}

/// The unescaped pattern and replacement of a command.
pub fn get_pattern_and_replacement(text: &str) -> (r: Result<(String, String), ErrorKind>)
    requires
        text@.len() < usize::MAX,
    ensures
        match command_parts(text@) {
            Some(parts) => r is Ok && string_views(r->Ok_0) == parts,
            None => r is Err && r->Err_0 is InvalidDelimiterCount,
        },
{
    match split_text(text) {
        Some((s1, s2)) => {
            let pattern = unescape_segment(s1);
            let to = unescape_segment(s2);
            Ok((pattern, to))
        },
        None => Err(ErrorKind::InvalidDelimiterCount),
    }
}

} // verus!

verus! {

/// Whether a backslash escape is pending after scanning `x` from `start` with
/// pending escape `escaped`.
pub open spec fn escape_after(x: Seq<char>, start: int, escaped: bool) -> bool
    decreases x.len() - start,
{
    if start < 0 || start >= x.len() {
        escaped
    } else {
        escape_after(x, start + 1, x[start] == '\\' && !escaped)
    }
}

/// A segment with no unescaped `/` in it and no backslash at its end that
/// would escape the delimiter after it.
pub open spec fn plain_segment(x: Seq<char>) -> bool {
    scan(x, 0, false).len() == 0 && !escape_after(x, 0, false)
}

/// Scanning across a stretch `x` of `s` that holds no delimiter finds none and
/// carries the escape state over it.
proof fn lemma_scan_across(s: Seq<char>, x: Seq<char>, i: int, j: int, escaped: bool)
    requires
        0 <= i,
        0 <= j <= x.len(),
        i + x.len() <= s.len(),
        s.subrange(i, i + x.len()) == x,
        scan(x, j, escaped).len() == 0,
    ensures
        scan(s, i + j, escaped) == scan(s, i + x.len(), escape_after(x, j, escaped)),
    decreases x.len() - j,
{
    if j < x.len() {
        let next = x[j] == '\\' && !escaped;
        assert(s[i + j] == x[j]);
        assert(scan(x, j, escaped) == (if x[j] == '/' && !escaped {
            seq![j]
        } else {
            Seq::<int>::empty()
        }) + scan(x, j + 1, next));
        lemma_scan_across(s, x, i, j + 1, next);
        assert(scan(s, i + j, escaped) =~= Seq::<int>::empty() + scan(s, i + j + 1, next));
    }
}

/// A command `s/P/R/` whose segments hold no unescaped `/` parses into `P` and
/// `R`, each unescaped.
pub proof fn lemma_parse_plain_command(p: Seq<char>, r: Seq<char>)
    requires
        plain_segment(p),
        plain_segment(r),
    ensures
        command_parts(seq!['s', '/'] + p + seq!['/'] + r + seq!['/']) == Some((unescape(p), unescape(r))),
{
    let t = seq!['s', '/'] + p + seq!['/'] + r + seq!['/'];
    let n = t.len() as int;
    let a: int = 2 + p.len() as int;
    let b: int = 3 + p.len() as int + r.len() as int;
    assert(t.subrange(2, a) =~= p);
    assert(t.subrange(a + 1, b) =~= r);
    assert(t[1] == '/' && t[a] == '/' && t[b] == '/');
    lemma_scan_across(t, p, 2, 0, false);
    lemma_scan_across(t, r, a + 1, 0, false);
    assert(scan(t, n, false) == Seq::<int>::empty());
    assert(scan(t, b, false) =~= seq![b] + scan(t, n, false));
    assert(scan(t, a, false) =~= seq![a] + scan(t, a + 1, false));
    assert(scan(t, 1, false) =~= seq![1] + scan(t, 2, false));
    let d = delimiters(t);
    assert(d =~= seq![1, a, b]);
    assert(boundaries_of(t) =~= seq![1, a, b]);
    assert(raw_parts(t) == Some((p, r)));
}

/// The same holds of the `/s/P/R/` form.
pub proof fn lemma_parse_plain_slash_command(p: Seq<char>, r: Seq<char>)
    requires
        plain_segment(p),
        plain_segment(r),
    ensures
        command_parts(seq!['/', 's', '/'] + p + seq!['/'] + r + seq!['/']) == Some((unescape(p), unescape(r))),
{
    let t = seq!['/', 's', '/'] + p + seq!['/'] + r + seq!['/'];
    let n = t.len() as int;
    let a: int = 3 + p.len() as int;
    let b: int = 4 + p.len() as int + r.len() as int;
    assert(t.subrange(3, a) =~= p);
    assert(t.subrange(a + 1, b) =~= r);
    assert(t[1] == 's' && t[2] == '/' && t[a] == '/' && t[b] == '/');
    lemma_scan_across(t, p, 3, 0, false);
    lemma_scan_across(t, r, a + 1, 0, false);
    assert(scan(t, n, false) == Seq::<int>::empty());
    assert(scan(t, b, false) =~= seq![b] + scan(t, n, false));
    assert(scan(t, a, false) =~= seq![a] + scan(t, a + 1, false));
    assert(scan(t, 2, false) =~= seq![2] + scan(t, 3, false));
    assert(scan(t, 1, false) =~= scan(t, 2, false));
    let d = delimiters(t);
    assert(d =~= seq![2, a, b]);
    assert(boundaries_of(t) =~= seq![2, a, b]);
    assert(raw_parts(t) == Some((p, r)));
}

} // verus!
