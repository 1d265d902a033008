//! Splitting of text into lines, fields and words, over the characters of the
//! text.
use vstd::prelude::*;
use vstd::std_specs::iter::IteratorSpec;
use vstd::string::StrSliceExecFns;

verus! {

broadcast use vstd::string::group_string_axioms;

/// The characters of `s`, in order.
pub fn chars_of(s: &str) -> (r: Vec<char>)
    ensures
        r@ == s@,
{
    let mut it = s.chars();
    let mut out: Vec<char> = Vec::new();
    loop
        invariant
            it.obeys_prophetic_iter_laws(),
            out@ + it.remaining() == s@,
        decreases s@.len() - out@.len(),
    {
        match it.next() {
            Some(c) => {
                out.push(c);
            },
            None => {
                assert(out@ =~= s@);
                return out;
            },
        }
    }
}

/// The pieces of `s` between occurrences of `sep`, first to last; there is
/// always at least one.
pub open spec fn split_on(s: Seq<char>, sep: char) -> Seq<Seq<char>>
    decreases s.len(),
{
    if s.len() == 0 {
        seq![Seq::empty()]
    } else {
        let prev = split_on(s.drop_last(), sep);
        if s.last() == sep {
            prev.push(Seq::empty())
        } else {
            prev.update(prev.len() - 1, prev.last().push(s.last()))
        }
    }
}

proof fn lemma_split_nonempty(s: Seq<char>, sep: char)
    ensures
        split_on(s, sep).len() >= 1,
    decreases s.len(),
{
    if s.len() > 0 {
        lemma_split_nonempty(s.drop_last(), sep);
    }
}

/// The views of a sequence of strings.
pub open spec fn views(v: Seq<String>) -> Seq<Seq<char>> {
    v.map_values(|x: String| x@)
}

/// The pieces of `s` between occurrences of `sep`.
pub fn split_text(s: &str, sep: char) -> (r: Vec<String>)
    ensures
        views(r@) == split_on(s@, sep),
{
    let cs = chars_of(s);
    let n = cs.len();
    let mut out: Vec<String> = Vec::new();
    let mut piece: usize = 0;
    let mut i: usize = 0;
    proof {
        let e = s@.subrange(0, 0);
        assert(e =~= Seq::<char>::empty());
        assert(split_on(e, sep) == seq![Seq::<char>::empty()]);
        assert(views(out@) =~= Seq::<Seq<char>>::empty());
        assert(views(out@).push(e) =~= split_on(e, sep));
    }
    while i < n
        invariant
            cs@ == s@,
            n == s@.len(),
            piece <= i <= n,
            views(out@).push(s@.subrange(piece as int, i as int)) == split_on(
                s@.subrange(0, i as int),
                sep,
            ),
        decreases n - i,
    {
        let ghost pre = s@.subrange(0, i as int);
        let ghost next = s@.subrange(0, i + 1);
        proof {
            assert(next.drop_last() =~= pre);
            lemma_split_nonempty(pre, sep);
        }
        if cs[i] == sep {
            let ghost before = out@;
            out.push(s.substring_char(piece, i).to_owned());
            proof {
                assert(views(out@) =~= views(before).push(s@.subrange(piece as int, i as int)));
                assert(s@.subrange(i + 1, i + 1) =~= Seq::<char>::empty());
            }
            piece = i + 1;
        } else {
            proof {
                assert(s@.subrange(piece as int, i + 1) =~= s@.subrange(piece as int, i as int).push(
                    s@[i as int],
                ));
                assert(views(out@).push(s@.subrange(piece as int, i + 1)) =~= views(out@).push(
                    s@.subrange(piece as int, i as int),
                ).update(views(out@).len() as int, s@.subrange(piece as int, i + 1)));
            }
        }
        i = i + 1;
    }
    let ghost before = out@;
    out.push(s.substring_char(piece, n).to_owned());
    proof {
        assert(views(out@) =~= views(before).push(s@.subrange(piece as int, n as int)));
        assert(s@.subrange(0, n as int) =~= s@);
    }
    out
}

/// Whether `c` has the Unicode `White_Space` property.
pub open spec fn is_white(c: char) -> bool {
    let u = c as u32;
    (9 <= u && u <= 13) || u == 32 || u == 0x85 || u == 0xa0 || u == 0x1680 || (0x2000 <= u && u
        <= 0x200a) || u == 0x2028 || u == 0x2029 || u == 0x202f || u == 0x205f || u == 0x3000
}

fn is_white_char(c: char) -> (r: bool)
    ensures
        r == is_white(c),
{
    let u = c as u32;
    (9 <= u && u <= 13) || u == 32 || u == 0x85 || u == 0xa0 || u == 0x1680 || (0x2000 <= u && u
        <= 0x200a) || u == 0x2028 || u == 0x2029 || u == 0x202f || u == 0x205f || u == 0x3000
}

/// The maximal runs of characters without white space, first to last.
pub open spec fn words_of(s: Seq<char>) -> Seq<Seq<char>>
    decreases s.len(),
{
    if s.len() == 0 {
        Seq::empty()
    } else {
        let prev = words_of(s.drop_last());
        let c = s.last();
        if is_white(c) {
            prev
        } else if s.len() == 1 || is_white(s[s.len() - 2]) {
            prev.push(seq![c])
        } else {
            prev.update(prev.len() - 1, prev.last().push(c))
        }
    }
}

/// The words of `s`, separated by white space.
pub fn split_words(s: &str) -> (r: Vec<String>)
    ensures
        views(r@) == words_of(s@),
{
    let cs = chars_of(s);
    let n = cs.len();
    let mut out: Vec<String> = Vec::new();
    let mut in_word = false;
    let mut start: usize = 0;
    let mut i: usize = 0;
    assert(views(out@) =~= words_of(s@.subrange(0, 0)));
    while i < n
        invariant
            cs@ == s@,
            n == s@.len(),
            i <= n,
            in_word ==> start < i && !is_white(s@[i - 1]) && views(out@).push(
                s@.subrange(start as int, i as int),
            ) == words_of(s@.subrange(0, i as int)),
            !in_word ==> views(out@) == words_of(s@.subrange(0, i as int)) && (i == 0 || is_white(
                s@[i - 1],
            )),
        decreases n - i,
    {
        let ghost pre = s@.subrange(0, i as int);
        let ghost next = s@.subrange(0, i + 1);
        assert(next.drop_last() =~= pre);
        let c = cs[i];
        if is_white_char(c) {
            if in_word {
                let ghost before = out@;
                out.push(s.substring_char(start, i).to_owned());
                assert(views(out@) =~= views(before).push(s@.subrange(start as int, i as int)));
                in_word = false;
            }
        } else {
            if !in_word {
                start = i;
                in_word = true;
                assert(s@.subrange(i as int, i + 1) =~= seq![c]);
                if i > 0 {
                    assert(next[next.len() - 2] == s@[i - 1]);
                }
            } else {
                assert(next[next.len() - 2] == s@[i - 1]);
                assert(s@.subrange(start as int, i + 1) =~= s@.subrange(start as int, i as int).push(
                    c,
                ));
                assert(views(out@).push(s@.subrange(start as int, i + 1)) =~= views(out@).push(
                    s@.subrange(start as int, i as int),
                ).update(views(out@).len() as int, s@.subrange(start as int, i + 1)));
            }
        }
        i = i + 1;
    }
    if in_word {
        let ghost before = out@;
        out.push(s.substring_char(start, n).to_owned());
        assert(views(out@) =~= views(before).push(s@.subrange(start as int, n as int)));
    }
    assert(s@.subrange(0, n as int) =~= s@);
    out
}

/// The first position from `i` on where `pat` occurs in `s`.
pub open spec fn find_from(s: Seq<char>, pat: Seq<char>, i: int) -> Option<int>
    decreases s.len() + 1 - i,
{
    if i < 0 || i + pat.len() > s.len() || i > s.len() {
        None
    } else if s.subrange(i, i + pat.len()) == pat {
        Some(i)
    } else {
        find_from(s, pat, i + 1)
    }
}

/// The text before and after the first occurrence of `pat`.
pub open spec fn split_once_on(s: Seq<char>, pat: Seq<char>) -> Option<(Seq<char>, Seq<char>)> {
    match find_from(s, pat, 0) {
        None => None,
        Some(i) => Some((s.subrange(0, i), s.subrange(i + pat.len(), s.len() as int))),
    }
}

/// Splits `s` at the first occurrence of `pat`.
pub fn split_once_text(s: &str, pat: &str) -> (r: Option<(String, String)>)
    ensures
        match r {
            None => split_once_on(s@, pat@) is None,
            Some((a, b)) => split_once_on(s@, pat@) == Some((a@, b@)),
        },
{
    let cs = chars_of(s);
    let ps = chars_of(pat);
    let n = cs.len();
    let m = ps.len();
    let mut i: usize = 0;
    while i <= n && m <= n - i
        invariant
            cs@ == s@,
            ps@ == pat@,
            n == s@.len(),
            m == pat@.len(),
            find_from(s@, pat@, 0) == find_from(s@, pat@, i as int),
        decreases n + 1 - i,
    {
        let mut j: usize = 0;
        while j < m && cs[i + j] == ps[j]
            invariant
                cs@ == s@,
                ps@ == pat@,
                n == s@.len(),
                m == pat@.len(),
                i + m <= n,
                j <= m,
                forall|k: int| 0 <= k < j ==> s@[i + k] == pat@[k],
            decreases m - j,
        {
            j = j + 1;
        }
        if j == m {
            assert(s@.subrange(i as int, i + m) =~= pat@);
            let a = s.substring_char(0, i).to_owned();
            let b = s.substring_char(i + m, n).to_owned();
            return Some((a, b));
        }
        assert(s@.subrange(i as int, i + m)[j as int] != pat@[j as int]);
        i = i + 1;
    }
    None
}

/// A line without the carriage return that ended it, if any.
pub open spec fn strip_cr(l: Seq<char>) -> Seq<char> {
    if l.len() > 0 && l.last() == '\r' {
        l.drop_last()
    } else {
        l
    }
}

/// The lines of `s`: separated by `\n` or `\r\n`, with the final line ending
/// optional.
pub open spec fn lines_of(s: Seq<char>) -> Seq<Seq<char>> {
    let p = split_on(s, '\n');
    let n = if p.last().len() == 0 {
        p.len() - 1
    } else {
        p.len() as int
    };
    Seq::new(n as nat, |i: int| if i < p.len() - 1 { strip_cr(p[i]) } else { p[i] })
}

fn strip_cr_text(l: &String) -> (r: String)
    ensures
        r@ == strip_cr(l@),
{
    let cs = chars_of(l.as_str());
    let n = cs.len();
    if n > 0 && cs[n - 1] == '\r' {
        assert(l@.subrange(0, n - 1) =~= l@.drop_last());
        l.as_str().substring_char(0, n - 1).to_owned()
    } else {
        l.clone()
    }
}

/// The lines of a text, read one after another.
pub struct TextLines {
    pub lines: Vec<String>,
    pub pos: usize,
}

impl TextLines {
    /// The lines not read yet.
    pub open spec fn rest(&self) -> Seq<Seq<char>> {
        views(self.lines@).skip(self.pos as int)
    }

    /// Whether the position lies within the lines.
    pub open spec fn wf(&self) -> bool {
        self.pos <= self.lines@.len()
    }

    /// The lines of `data`, none read yet.
    pub fn new(data: &str) -> (r: TextLines)
        ensures
            r.wf(),
            r.rest() == lines_of(data@),
    {
        let pieces = split_text(data, '\n');
        let ghost p = split_on(data@, '\n');
        proof {
            lemma_split_nonempty(data@, '\n');
        }
        let np = pieces.len();
        assert(pieces@[np - 1]@ == p.last());
        let count = if pieces[np - 1].as_str().is_empty() {
            np - 1
        } else {
            np
        };
        let mut lines: Vec<String> = Vec::new();
        let mut i: usize = 0;
        while i < count
            invariant
                views(pieces@) == p,
                p == split_on(data@, '\n'),
                np == p.len(),
                count <= np,
                np >= 1,
                count == (if p.last().len() == 0 { p.len() - 1 } else { p.len() as int }),
                i <= count,
                lines@.len() == i,
                forall|k: int|
                    0 <= k < i ==> (#[trigger] lines@[k])@ == (if k < p.len() - 1 {
                        strip_cr(p[k])
                    } else {
                        p[k]
                    }),
            decreases count - i,
        {
            assert(pieces@[i as int]@ == p[i as int]);
            let line = if i < np - 1 {
                strip_cr_text(&pieces[i])
            } else {
                pieces[i].clone()
            };
            lines.push(line);
            i = i + 1;
        }
        let r = TextLines { lines, pos: 0 };
        assert(r.rest() =~= lines_of(data@));
        r
    }

    /// The next line, if any is left.
    pub fn next_line(&mut self) -> (r: Option<String>)
        requires
            old(self).wf(),
        ensures
            final(self).wf(),
            match r {
                None => old(self).rest().len() == 0 && final(self).rest() == old(self).rest(),
                Some(l) => old(self).rest().len() > 0 && l@ == old(self).rest()[0]
                    && final(self).rest() == old(self).rest().drop_first(),
            },
    {
        if self.pos < self.lines.len() {
            let l = self.lines[self.pos].clone();
            self.pos = self.pos + 1;
            assert(final(self).rest() =~= old(self).rest().drop_first());
            Some(l)
        } else {
            None
        }
    }
}

/// Whether two texts hold the same characters.
pub fn same_text(a: &str, b: &str) -> (r: bool)
    ensures
        r == (a@ == b@),
{
    let x = chars_of(a);
    let y = chars_of(b);
    if x.len() != y.len() {
        return false;
    }
    let mut i: usize = 0;
    while i < x.len()
        invariant
            x@ == a@,
            y@ == b@,
            x@.len() == y@.len(),
            i <= x@.len(),
            forall|k: int| 0 <= k < i ==> a@[k] == b@[k],
        decreases x@.len() - i,
    {
        if x[i] != y[i] {
            return false;
        }
        i = i + 1;
    }
    assert(a@ =~= b@);
    true
}

/// Whether `c` is a decimal digit.
pub open spec fn is_digit(c: char) -> bool {
    '0' <= c && c <= '9'
}

/// The value of a sequence of decimal digits.
pub open spec fn digits_value(d: Seq<char>) -> int
    decreases d.len(),
{
    if d.len() == 0 {
        0
    } else {
        digits_value(d.drop_last()) * 10 + (d.last() as int - 48)
    }
}

/// The digits of an unsigned number, after an optional `+`.
pub open spec fn unsigned_digits(s: Seq<char>) -> Seq<char> {
    if s.len() > 0 && s[0] == '+' {
        s.drop_first()
    } else {
        s
    }
}

/// The `u32` that `s` spells in decimal, with an optional leading `+`.
pub open spec fn u32_text_value(s: Seq<char>) -> Option<u32> {
    let d = unsigned_digits(s);
    if d.len() > 0 && (forall|i: int| 0 <= i < d.len() ==> #[trigger] is_digit(d[i]))
        && digits_value(d) <= u32::MAX {
        Some(digits_value(d) as u32)
    } else {
        None
    }
}

proof fn lemma_digits_grow(d: Seq<char>, k: int)
    requires
        0 <= k <= d.len(),
        forall|i: int| 0 <= i < d.len() ==> #[trigger] is_digit(d[i]),
    ensures
        digits_value(d) >= digits_value(d.subrange(0, k)),
    decreases d.len(),
{
    if k < d.len() {
        let e = d.drop_last();
        assert forall|i: int| 0 <= i < e.len() implies #[trigger] is_digit(e[i]) by {
            assert(e[i] == d[i]);
        }
        lemma_digits_grow(e, k);
        assert(e.subrange(0, k) =~= d.subrange(0, k));
        lemma_digits_nonneg(e);
        assert(is_digit(d[d.len() - 1]));
    } else {
        assert(d.subrange(0, k) =~= d);
    }
}

proof fn lemma_digits_nonneg(d: Seq<char>)
    requires
        forall|i: int| 0 <= i < d.len() ==> #[trigger] is_digit(d[i]),
    ensures
        digits_value(d) >= 0,
    decreases d.len(),
{
    if d.len() > 0 {
        let e = d.drop_last();
        assert forall|i: int| 0 <= i < e.len() implies #[trigger] is_digit(e[i]) by {
            assert(e[i] == d[i]);
        }
        lemma_digits_nonneg(e);
        assert(is_digit(d[d.len() - 1]));
    }
}

/// Reads a `u32` written in decimal, with an optional leading `+`.
pub fn parse_u32_text(s: &str) -> (r: Option<u32>)
    ensures
        r == u32_text_value(s@),
{
    let cs = chars_of(s);
    let n = cs.len();
    let start: usize = if n > 0 && cs[0] == '+' {
        1
    } else {
        0
    };
    let ghost d = unsigned_digits(s@);
    assert(d =~= s@.subrange(start as int, n as int));
    if start == n {
        return None;
    }
    let mut acc: u32 = 0;
    let mut i: usize = start;
    while i < n
        invariant
            cs@ == s@,
            n == s@.len(),
            start <= i <= n,
            d == s@.subrange(start as int, n as int),
            d == unsigned_digits(s@),
            acc == digits_value(s@.subrange(start as int, i as int)),
            forall|k: int| start <= k < i ==> #[trigger] is_digit(s@[k]),
        decreases n - i,
    {
        let c = cs[i];
        if !('0' <= c && c <= '9') {
            assert(0 <= i - start < d.len());
            assert(d[i - start] == c);
            assert(!is_digit(d[i - start]));
            assert(!(forall|k: int| 0 <= k < d.len() ==> #[trigger] is_digit(d[k])));
            return None;
        }
        let v = (c as u32) - 48;
        let ghost pre = s@.subrange(start as int, i as int);
        let ghost next = s@.subrange(start as int, i + 1);
        assert(next.drop_last() =~= pre);
        if acc > 429496729 || (acc == 429496729 && v > 5) {
            proof {
                assert(next.last() == c);
                assert(digits_value(next) == acc * 10 + v);
                assert(digits_value(next) > u32::MAX);
                if forall|k: int| 0 <= k < d.len() ==> #[trigger] is_digit(d[k]) {
                    lemma_digits_grow(d, i + 1 - start);
                    assert(d.subrange(0, i + 1 - start) =~= next);
                    assert(digits_value(d) > u32::MAX);
                }
                assert(u32_text_value(s@) is None);
            }
            return None;
        }
        acc = acc * 10 + v;
        i = i + 1;
    }
    assert(s@.subrange(start as int, n as int) == d);
    assert forall|k: int| 0 <= k < d.len() implies #[trigger] is_digit(d[k]) by {
        assert(d[k] == s@[start + k]);
    }
    Some(acc)
}

} // verus!
