//! Line-oriented views of text: splitting into lines, joining lines back, and
//! substring search.
use vstd::prelude::*;
use vstd::string::StrSliceExecFns;
use vstd::string::StringExecFns;
use vstd::std_specs::iter::IteratorSpec;

verus! {

/// `line` with one trailing carriage return removed, if it has one.
pub open spec fn strip_cr(line: Seq<char>) -> Seq<char> {
    if line.len() > 0 && line.last() == '\r' {
        line.drop_last()
    } else {
        line
    }
}

/// The lines of `s`, where `cur` holds the part of the current line that was
/// read before `s`. A line ends at `'\n'` (one `'\r'` before it belongs to the
/// terminator); a final line without terminator counts when it is not empty.
pub open spec fn lines_from(s: Seq<char>, cur: Seq<char>) -> Seq<Seq<char>>
    decreases s.len(),
{
    if s.len() == 0 {
        if cur.len() == 0 {
            seq![]
        } else {
            seq![cur]
        }
    } else if s[0] == '\n' {
        seq![strip_cr(cur)] + lines_from(s.drop_first(), seq![])
    } else {
        lines_from(s.drop_first(), cur.push(s[0]))
    }
}

/// The lines of `s`, without their terminators.
pub open spec fn lines_of(s: Seq<char>) -> Seq<Seq<char>> {
    lines_from(s, seq![])
}

/// Each line followed by `'\n'`, all concatenated.
pub open spec fn joined(ls: Seq<Seq<char>>) -> Seq<char>
    decreases ls.len(),
{
    if ls.len() == 0 {
        seq![]
    } else {
        joined(ls.drop_last()) + ls.last() + seq!['\n']
    }
}

/// The text of each string.
pub open spec fn texts(v: Seq<String>) -> Seq<Seq<char>> {
    v.map_values(|l: String| l@)
}

/// `needle` occurs in `hay` at position `i`.
pub open spec fn occurs_at(hay: Seq<char>, needle: Seq<char>, i: int) -> bool {
    0 <= i && i + needle.len() <= hay.len() && hay.subrange(i, i + needle.len()) == needle
}

/// `needle` occurs somewhere in `hay`.
#[verifier::opaque]
pub open spec fn has_substring(hay: Seq<char>, needle: Seq<char>) -> bool {
    exists|i: int| occurs_at(hay, needle, i)
}

/// `s` holds no line terminator.
pub open spec fn no_newline(s: Seq<char>) -> bool {
    forall|j: int| 0 <= j < s.len() ==> s[j] != '\n'
}

/// A line that survives being written with a terminator and read back: it
/// holds no `'\n'` and does not end with `'\r'`.
pub open spec fn is_plain_line(l: Seq<char>) -> bool {
    no_newline(l) && strip_cr(l) == l
}

/// Every line of `ls` is plain.
pub open spec fn plain_lines(ls: Seq<Seq<char>>) -> bool {
    forall|k: int| 0 <= k < ls.len() ==> is_plain_line(#[trigger] ls[k])
}

/// A single line with its terminator reads back as that line.
pub proof fn lemma_line_terminated(l: Seq<char>, cur: Seq<char>)
    requires
        no_newline(l),
    ensures
        lines_from(l + seq!['\n'], cur) == seq![strip_cr(cur + l)],
    decreases l.len(),
{
    let s = l + seq!['\n'];
    if l.len() == 0 {
        assert(s =~= seq!['\n']);
        assert(s.drop_first() =~= Seq::<char>::empty());
        assert(cur + l =~= cur);
        assert(lines_from(s.drop_first(), seq![]) =~= Seq::<Seq<char>>::empty());
        assert(lines_from(s, cur) == seq![strip_cr(cur)] + lines_from(s.drop_first(), seq![]));
        assert(seq![strip_cr(cur)] + Seq::<Seq<char>>::empty() =~= seq![strip_cr(cur)]);
    } else {
        assert(s[0] == l[0]);
        assert(l[0] != '\n');
        assert(s.drop_first() =~= l.drop_first() + seq!['\n']);
        assert(lines_from(s, cur) == lines_from(s.drop_first(), cur.push(l[0])));
        lemma_line_terminated(l.drop_first(), cur.push(l[0]));
        assert(cur.push(l[0]) + l.drop_first() =~= cur + l);
    }
}

/// Reading lines splits at a terminator that ends the first part.
pub proof fn lemma_lines_concat(x: Seq<char>, y: Seq<char>, cur: Seq<char>)
    requires
        x.len() > 0,
        x.last() == '\n',
    ensures
        lines_from(x + y, cur) == lines_from(x, cur) + lines_of(y),
    decreases x.len(),
{
    let xy = x + y;
    assert(xy[0] == x[0]);
    assert(xy.drop_first() =~= x.drop_first() + y);
    if x[0] == '\n' {
        if x.len() == 1 {
            assert(x.drop_first() =~= Seq::<char>::empty());
            assert(x.drop_first() + y =~= y);
            assert(lines_from(x.drop_first(), seq![]) =~= Seq::<Seq<char>>::empty());
            assert(lines_from(x, cur) =~= seq![strip_cr(cur)]);
        } else {
            lemma_lines_concat(x.drop_first(), y, seq![]);
            assert(seq![strip_cr(cur)] + (lines_from(x.drop_first(), seq![]) + lines_of(y)) =~= (
            seq![strip_cr(cur)] + lines_from(x.drop_first(), seq![])) + lines_of(y));
        }
    } else {
        lemma_lines_concat(x.drop_first(), y, cur.push(x[0]));
    }
}

/// The lines of `x + y` are those of `x` then those of `y` when `x` is empty
/// or ends with a terminator.
pub proof fn lemma_lines_of_concat(x: Seq<char>, y: Seq<char>)
    requires
        x.len() == 0 || x.last() == '\n',
    ensures
        lines_of(x + y) == lines_of(x) + lines_of(y),
{
    if x.len() == 0 {
        assert(x + y =~= y);
        assert(lines_of(x) =~= Seq::<Seq<char>>::empty());
        assert(lines_of(x) + lines_of(y) =~= lines_of(y));
    } else {
        lemma_lines_concat(x, y, seq![]);
    }
}

/// Joined lines are empty or end with a terminator.
pub proof fn lemma_joined_ends(ls: Seq<Seq<char>>)
    ensures
        joined(ls).len() == 0 || joined(ls).last() == '\n',
{
    if ls.len() > 0 {
        let j = joined(ls.drop_last()) + ls.last() + seq!['\n'];
        assert(j.last() == '\n');
    }
}

/// Plain lines, joined and read back, give the same lines.
pub proof fn lemma_lines_of_joined(ls: Seq<Seq<char>>)
    requires
        plain_lines(ls),
    ensures
        lines_of(joined(ls)) == ls,
    decreases ls.len(),
{
    if ls.len() == 0 {
        assert(lines_of(joined(ls)) =~= ls);
    } else {
        let init = ls.drop_last();
        let l = ls.last();
        assert(is_plain_line(ls[ls.len() - 1]));
        assert(plain_lines(init)) by {
            assert forall|k: int| 0 <= k < init.len() implies is_plain_line(#[trigger] init[k]) by {
                assert(init[k] == ls[k]);
            }
        }
        lemma_lines_of_joined(init);
        lemma_joined_ends(init);
        assert(joined(ls) =~= joined(init) + (l + seq!['\n']));
        lemma_lines_of_concat(joined(init), l + seq!['\n']);
        lemma_line_terminated(l, seq![]);
        assert(Seq::<char>::empty() + l =~= l);
        assert(init + seq![l] =~= ls);
    }
}

/// No line read from text holds a terminator.
pub proof fn lemma_lines_no_newline(s: Seq<char>, cur: Seq<char>)
    requires
        no_newline(cur),
    ensures
        forall|k: int| 0 <= k < lines_from(s, cur).len() ==> no_newline(#[trigger] lines_from(s, cur)[k]),
    decreases s.len(),
{
    if s.len() > 0 {
        if s[0] == '\n' {
            lemma_lines_no_newline(s.drop_first(), seq![]);
            let first = strip_cr(cur);
            assert(no_newline(first)) by {
                assert forall|j: int| 0 <= j < first.len() implies first[j] != '\n' by {
                    assert(first[j] == cur[j]);
                }
            }
            let r = seq![first] + lines_from(s.drop_first(), seq![]);
            assert(lines_from(s, cur) == r);
            assert forall|k: int| 0 <= k < r.len() implies no_newline(#[trigger] r[k]) by {
                if k > 0 {
                    assert(r[k] == lines_from(s.drop_first(), seq![])[k - 1]);
                }
            }
        } else {
            let c2 = cur.push(s[0]);
            assert(no_newline(c2)) by {
                assert forall|j: int| 0 <= j < c2.len() implies c2[j] != '\n' by {
                    if j < cur.len() {
                        assert(c2[j] == cur[j]);
                    }
                }
            }
            assert(lines_from(s, cur) == lines_from(s.drop_first(), c2));
            lemma_lines_no_newline(s.drop_first(), c2);
        }
    } else {
        assert(lines_from(s, cur).len() == 0 || lines_from(s, cur) == seq![cur]);
    }
}

/// An occurrence inside a part of `u` is an occurrence in `u`.
pub proof fn lemma_occurs_in_part(u: Seq<char>, p: int, q: int, m: Seq<char>, i: int)
    requires
        0 <= p <= q <= u.len(),
        occurs_at(u.subrange(p, q), m, i),
    ensures
        occurs_at(u, m, i + p),
{
    assert(u.subrange(i + p, i + p + m.len()) =~= u.subrange(p, q).subrange(i, i + m.len()));
}

/// A text that holds no `m` yields lines that hold no `m`.
pub proof fn lemma_lines_lack(s: Seq<char>, cur: Seq<char>, m: Seq<char>)
    requires
        !has_substring(cur + s, m),
    ensures
        forall|k: int|
            0 <= k < lines_from(s, cur).len() ==> !has_substring(#[trigger] lines_from(s, cur)[k], m),
    decreases s.len(),
{
    reveal(has_substring);
    let t = cur + s;
    if s.len() == 0 {
        assert(t =~= cur);
        assert(lines_from(s, cur).len() == 0 || lines_from(s, cur) == seq![cur]);
    } else if s[0] == '\n' {
        let first = strip_cr(cur);
        assert(first =~= t.subrange(0, first.len() as int));
        if has_substring(first, m) {
            let i = choose|i: int| occurs_at(first, m, i);
            lemma_occurs_in_part(t, 0, first.len() as int, m, i);
        }
        let rest = s.drop_first();
        assert(rest =~= t.subrange(cur.len() as int + 1, t.len() as int));
        assert(Seq::<char>::empty() + rest =~= rest);
        if has_substring(rest, m) {
            let i = choose|i: int| occurs_at(rest, m, i);
            lemma_occurs_in_part(t, cur.len() as int + 1, t.len() as int, m, i);
        }
        lemma_lines_lack(rest, seq![], m);
        let r = seq![first] + lines_from(rest, seq![]);
        assert(lines_from(s, cur) == r);
        assert forall|k: int| 0 <= k < r.len() implies !has_substring(#[trigger] r[k], m) by {
            if k > 0 {
                assert(r[k] == lines_from(rest, seq![])[k - 1]);
            }
        }
    } else {
        assert(cur.push(s[0]) + s.drop_first() =~= t);
        assert(lines_from(s, cur) == lines_from(s.drop_first(), cur.push(s[0])));
        lemma_lines_lack(s.drop_first(), cur.push(s[0]), m);
    }
}

/// The characters of `s`, in order.
pub fn chars_of(s: &str) -> (r: Vec<char>)
    ensures
        r@ == s@,
{
    broadcast use vstd::string::next_postcondition, vstd::string::axiom_spec_iter;

    let mut it = s.chars();
    let mut r: Vec<char> = Vec::new();
    loop
        invariant
            r@ + it.remaining() == s@,
            it.decrease() is Some,
        decreases it.decrease()->0,
    {
        match it.next() {
            Some(c) => {
                r.push(c);
            },
            None => {
                return r;
            },
        }
    }
}

/// Splits `content` into its lines, as `lines_of` describes them.
pub fn split_lines(content: &str) -> (r: Vec<String>)
    ensures
        texts(r@) == lines_of(content@),
{
    let cs = chars_of(content);
    let n = cs.len();
    let mut r: Vec<String> = Vec::new();
    let mut start: usize = 0;
    let mut i: usize = 0;
    proof {
        assert(cs@.skip(0) == cs@);
        assert(cs@.subrange(0, 0) =~= Seq::<char>::empty());
        assert(texts(r@) + lines_of(cs@) =~= lines_of(cs@));
    }
    while i < n
        invariant
            n == cs@.len(),
            cs@ == content@,
            start <= i <= n,
            texts(r@) + lines_from(cs@.skip(i as int), cs@.subrange(start as int, i as int))
                == lines_of(content@),
        decreases n - i,
    {
        let ghost cur = cs@.subrange(start as int, i as int);
        proof {
            assert(cs@.skip(i as int).drop_first() =~= cs@.skip(i + 1));
            assert(cs@.skip(i as int)[0] == cs@[i as int]);
        }
        if cs[i] == '\n' {
            let mut end = i;
            if end > start && cs[end - 1] == '\r' {
                end = end - 1;
            }
            let line = String::from_str(content.substring_char(start, end));
            proof {
                assert(strip_cr(cur) =~= cs@.subrange(start as int, end as int));
                assert(cs@.subrange(i + 1, i + 1) =~= Seq::<char>::empty());
                assert(texts(r@.push(line)) =~= texts(r@).push(line@));
                assert(texts(r@).push(line@) + lines_from(cs@.skip(i + 1), seq![]) =~= texts(r@) + (
                seq![line@] + lines_from(cs@.skip(i + 1), seq![])));
            }
            r.push(line);
            start = i + 1;
        } else {
            proof {
                assert(cur.push(cs@[i as int]) =~= cs@.subrange(start as int, i + 1));
            }
        }
        i = i + 1;
    }
    proof {
        assert(cs@.skip(n as int) =~= Seq::<char>::empty());
    }
    if start < n {
        let line = String::from_str(content.substring_char(start, n));
        proof {
            assert(texts(r@.push(line)) =~= texts(r@) + seq![line@]);
        }
        r.push(line);
    } else {
        proof {
            assert(texts(r@) + seq![] =~= texts(r@));
        }
    }
    r
}

/// Joins `lines`, each followed by `'\n'`.
pub fn join_lines(lines: &Vec<String>) -> (r: String)
    ensures
        r@ == joined(texts(lines@)),
{
    let mut r = String::new();
    let mut i: usize = 0;
    proof {
        assert(texts(lines@.subrange(0, 0)) =~= Seq::<Seq<char>>::empty());
    }
    while i < lines.len()
        invariant
            i <= lines.len(),
            r@ == joined(texts(lines@.subrange(0, i as int))),
        decreases lines.len() - i,
    {
        r.append(lines[i].as_str());
        r.append("\n");
        proof {
            reveal_strlit("\n");
            let t = texts(lines@.subrange(0, i + 1));
            assert(t.drop_last() =~= texts(lines@.subrange(0, i as int)));
            assert(t.last() == lines@[i as int]@);
        }
        i = i + 1;
    }
    proof {
        assert(lines@.subrange(0, lines@.len() as int) =~= lines@);
    }
    r
}

/// Whether `h` holds `n` at position `i`.
fn matches_at(h: &Vec<char>, n: &Vec<char>, i: usize) -> (r: bool)
    requires
        i + n@.len() <= h@.len(),
    ensures
        r == (h@.subrange(i as int, i + n@.len()) == n@),
{
    let hl = h.len();
    let mut k: usize = 0;
    while k < n.len()
        invariant
            hl == h@.len(),
            i + n@.len() <= h@.len(),
            k <= n@.len(),
            forall|m: int| 0 <= m < k ==> h@[i + m] == n@[m],
        decreases n.len() - k,
    {
        if h[i + k] != n[k] {
            proof {
                assert(h@.subrange(i as int, i + n@.len())[k as int] != n@[k as int]);
            }
            return false;
        }
        k = k + 1;
    }
    proof {
        assert(h@.subrange(i as int, i + n@.len()) =~= n@);
    }
    true
}

/// Whether `needle` occurs in `hay`.
pub fn contains(hay: &str, needle: &str) -> (r: bool)
    ensures
        r == has_substring(hay@, needle@),
{
    reveal(has_substring);
    let h = chars_of(hay);
    let n = chars_of(needle);
    if n.len() > h.len() {
        return false;
    }
    let last = h.len() - n.len();
    let mut i: usize = 0;
    loop
        invariant
            i <= last,
            last == h@.len() - n@.len(),
            h@ == hay@,
            n@ == needle@,
            forall|j: int| 0 <= j < i ==> !occurs_at(hay@, needle@, j),
        decreases last + 1 - i,
    {
        if matches_at(&h, &n, i) {
            proof {
                reveal(has_substring);
                assert(occurs_at(hay@, needle@, i as int));
            }
            return true;
        }
        if i == last {
            proof {
                reveal(has_substring);
            }
            return false;
        }
        i = i + 1;
    }
}

} // verus!
