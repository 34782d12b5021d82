//! The managed block: locating a previously written block in a file's lines,
//! dropping it, and appending a freshly rendered one.
use vstd::prelude::*;
use vstd::string::StringExecFns;
use crate::text::{
    contains, has_substring, is_plain_line, join_lines, joined, lemma_joined_ends,
    lemma_line_terminated, lemma_lines_lack, lemma_lines_no_newline, lemma_lines_of_concat,
    lemma_lines_of_joined, lines_of, no_newline, occurs_at, plain_lines, split_lines, strip_cr,
    texts,
};

verus! {

/// The sentinel text that opens a managed block written with `comment`.
pub open spec fn start_marker(comment: Seq<char>) -> Seq<char> {
    comment + " CONFIBLE START"@
}

/// The sentinel text that closes a managed block written with `comment`.
pub open spec fn end_marker(comment: Seq<char>) -> Seq<char> {
    comment + " CONFIBLE END"@
}

/// State of the scan over a file's lines: the lines kept so far, and whether
/// lines are currently being kept (`false` inside a managed block).
pub type ScanState = (Seq<Seq<char>>, bool);

/// One step of the scan. A line holding the start sentinel drops one blank
/// line kept just before it and starts skipping; a line holding the end
/// sentinel resumes keeping; both sentinel lines are dropped. Any other line is
/// kept while keeping.
pub open spec fn scan_line(st: ScanState, line: Seq<char>, start: Seq<char>, end: Seq<char>) -> ScanState {
    let is_start = has_substring(line, start);
    let is_end = has_substring(line, end);
    if is_start || is_end {
        let out = if is_start && st.0.len() > 0 && st.0.last().len() == 0 {
            st.0.drop_last()
        } else {
            st.0
        };
        (out, is_end || (st.1 && !is_start))
    } else if st.1 {
        (st.0.push(line), true)
    } else {
        st
    }
}

/// The scan over `lines`, continuing from `st`.
pub open spec fn scan_from(st: ScanState, lines: Seq<Seq<char>>, start: Seq<char>, end: Seq<char>) -> ScanState
    decreases lines.len(),
{
    if lines.len() == 0 {
        st
    } else {
        scan_line(scan_from(st, lines.drop_last(), start, end), lines.last(), start, end)
    }
}

/// The lines of a file with its managed block (if any) removed.
pub open spec fn stripped(lines: Seq<Seq<char>>, comment: Seq<char>) -> Seq<Seq<char>> {
    scan_from((seq![], true), lines, start_marker(comment), end_marker(comment)).0
}

/// A managed block as written to a file: a blank line, the start sentinel, the
/// block's text, a blank line and the end sentinel.
pub open spec fn rendered(comment: Seq<char>, append: Seq<char>) -> Seq<char> {
    "\n"@ + start_marker(comment) + "\n"@ + append + "\n\n"@ + end_marker(comment) + "\n"@
}

/// The new content of a file that held `content`, once its managed block for
/// `comment` holds `append`.
pub open spec fn synced(content: Seq<char>, comment: Seq<char>, append: Seq<char>) -> Seq<char> {
    joined(stripped(lines_of(content), comment)) + rendered(comment, append)
}

/// The start sentinel for `comment`.
pub fn start_marker_of(comment: &str) -> (r: String)
    ensures
        r@ == start_marker(comment@),
{
    String::from_str(comment).concat(" CONFIBLE START")
}

/// The end sentinel for `comment`.
pub fn end_marker_of(comment: &str) -> (r: String)
    ensures
        r@ == end_marker(comment@),
{
    String::from_str(comment).concat(" CONFIBLE END")
}

/// Removes the managed block written with `comment` from `lines`.
pub fn strip_managed_block(lines: &Vec<String>, comment: &str) -> (r: Vec<String>)
    ensures
        texts(r@) == stripped(texts(lines@), comment@),
{
    let start = start_marker_of(comment);
    let end = end_marker_of(comment);
    let ghost ls = texts(lines@);
    let mut out: Vec<String> = Vec::new();
    let mut copying = true;
    let mut i: usize = 0;
    proof {
        assert(ls.subrange(0, 0) =~= Seq::<Seq<char>>::empty());
        assert(texts(out@) =~= Seq::<Seq<char>>::empty());
    }
    while i < lines.len()
        invariant
            i <= lines.len(),
            ls == texts(lines@),
            start@ == start_marker(comment@),
            end@ == end_marker(comment@),
            (texts(out@), copying) == scan_from((seq![], true), ls.subrange(0, i as int), start@, end@),
        decreases lines.len() - i,
    {
        let line = lines[i].as_str();
        let is_start = contains(line, start.as_str());
        let is_end = contains(line, end.as_str());
        proof {
            let pre = ls.subrange(0, i + 1);
            assert(pre.drop_last() =~= ls.subrange(0, i as int));
            assert(pre.last() == line@);
        }
        if is_start || is_end {
            if is_start && out.len() > 0 && out[out.len() - 1].as_str().is_empty() {
                let ghost before = out@;
                out.pop();
                proof {
                    assert(texts(out@) =~= texts(before).drop_last());
                }
            }
            copying = is_end || (copying && !is_start);
        } else if copying {
            let ghost before = out@;
            out.push(String::from_str(line));
            proof {
                assert(texts(out@) =~= texts(before).push(line@));
            }
        }
        i = i + 1;
    }
    proof {
        assert(ls.subrange(0, lines@.len() as int) =~= ls);
    }
    out
}

/// The text of a managed block for `comment` holding `append`.
pub fn render_block(comment: &str, append: &str) -> (r: String)
    ensures
        r@ == rendered(comment@, append@),
{
    let mut r = String::from_str("\n");
    r.append(start_marker_of(comment).as_str());
    r.append("\n");
    r.append(append);
    r.append("\n\n");
    r.append(end_marker_of(comment).as_str());
    r.append("\n");
    r
}

/// The new content of a file that held `content`: its lines without the
/// managed block for `comment`, each ended by `'\n'`, then the block holding
/// `append`.
pub fn sync_content(content: &str, comment: &str, append: &str) -> (r: String)
    ensures
        r@ == synced(content@, comment@, append@),
{
    let lines = split_lines(content);
    let kept = strip_managed_block(&lines, comment);
    let r = join_lines(&kept);
    r.concat(render_block(comment, append).as_str())
}

/// No line of `ls` holds either sentinel for `comment`.
pub open spec fn free_of_markers(ls: Seq<Seq<char>>, comment: Seq<char>) -> bool {
    forall|k: int|
        0 <= k < ls.len() ==> !has_substring(#[trigger] ls[k], start_marker(comment))
            && !has_substring(ls[k], end_marker(comment))
}

/// A text that the block can hold without being mistaken for its sentinels.
pub open spec fn free_text(t: Seq<char>, comment: Seq<char>) -> bool {
    !has_substring(t, start_marker(comment)) && !has_substring(t, end_marker(comment))
}

proof fn lemma_scan_concat(st: ScanState, a: Seq<Seq<char>>, b: Seq<Seq<char>>, start: Seq<char>, end: Seq<char>)
    ensures
        scan_from(st, a + b, start, end) == scan_from(scan_from(st, a, start, end), b, start, end),
    decreases b.len(),
{
    if b.len() == 0 {
        assert(a + b =~= a);
    } else {
        assert((a + b).drop_last() =~= a + b.drop_last());
        assert((a + b).last() == b.last());
        lemma_scan_concat(st, a, b.drop_last(), start, end);
    }
}

proof fn lemma_scan_one(st: ScanState, l: Seq<char>, start: Seq<char>, end: Seq<char>)
    ensures
        scan_from(st, seq![l], start, end) == scan_line(st, l, start, end),
{
    assert(seq![l].drop_last() =~= Seq::<Seq<char>>::empty());
    assert(seq![l].last() == l);
    assert(scan_from(st, Seq::<Seq<char>>::empty(), start, end) == st);
}

/// While keeping, lines without sentinels are all kept.
proof fn lemma_scan_keeps(o: Seq<Seq<char>>, ls: Seq<Seq<char>>, comment: Seq<char>)
    requires
        free_of_markers(ls, comment),
    ensures
        scan_from((o, true), ls, start_marker(comment), end_marker(comment)) == (o + ls, true),
    decreases ls.len(),
{
    if ls.len() == 0 {
        assert(o + ls =~= o);
    } else {
        let init = ls.drop_last();
        assert(free_of_markers(init, comment)) by {
            assert forall|k: int| 0 <= k < init.len() implies !has_substring(#[trigger] init[k], start_marker(comment))
                && !has_substring(init[k], end_marker(comment)) by {
                assert(init[k] == ls[k]);
            }
        }
        assert(!has_substring(ls[ls.len() - 1], start_marker(comment)));
        lemma_scan_keeps(o, init, comment);
        assert((o + init).push(ls.last()) =~= o + ls);
    }
}

/// While skipping, lines without sentinels are all dropped.
proof fn lemma_scan_skips(o: Seq<Seq<char>>, ls: Seq<Seq<char>>, comment: Seq<char>)
    requires
        free_of_markers(ls, comment),
    ensures
        scan_from((o, false), ls, start_marker(comment), end_marker(comment)) == (o, false),
    decreases ls.len(),
{
    if ls.len() > 0 {
        let init = ls.drop_last();
        assert(free_of_markers(init, comment)) by {
            assert forall|k: int| 0 <= k < init.len() implies !has_substring(#[trigger] init[k], start_marker(comment))
                && !has_substring(init[k], end_marker(comment)) by {
                assert(init[k] == ls[k]);
            }
        }
        assert(!has_substring(ls[ls.len() - 1], start_marker(comment)));
        lemma_scan_skips(o, init, comment);
    }
}

/// What the scan keeps is plain and free of sentinels when the lines it reads are plain.
proof fn lemma_scan_output(st: ScanState, ls: Seq<Seq<char>>, comment: Seq<char>)
    requires
        forall|k: int| 0 <= k < st.0.len() ==> no_newline(#[trigger] st.0[k]),
        free_of_markers(st.0, comment),
        forall|k: int| 0 <= k < ls.len() ==> no_newline(#[trigger] ls[k]),
    ensures
        ({
            let out = scan_from(st, ls, start_marker(comment), end_marker(comment)).0;
            &&& forall|k: int| 0 <= k < out.len() ==> no_newline(#[trigger] out[k])
            &&& free_of_markers(out, comment)
        }),
    decreases ls.len(),
{
    if ls.len() > 0 {
        let init = ls.drop_last();
        assert forall|k: int| 0 <= k < init.len() implies no_newline(#[trigger] init[k]) by {
            assert(init[k] == ls[k]);
        }
        lemma_scan_output(st, init, comment);
        assert(no_newline(ls[ls.len() - 1]));
    }
}

/// The start sentinel line does not hold the end sentinel, and the end
/// sentinel line does not hold the start sentinel.
proof fn lemma_sentinels_distinct(comment: Seq<char>)
    ensures
        has_substring(start_marker(comment), start_marker(comment)),
        has_substring(end_marker(comment), end_marker(comment)),
        !has_substring(start_marker(comment), end_marker(comment)),
        !has_substring(end_marker(comment), start_marker(comment)),
        !has_substring(seq![], start_marker(comment)),
        !has_substring(seq![], end_marker(comment)),
        start_marker(comment).len() == comment.len() + 15,
        end_marker(comment).len() == comment.len() + 13,
        start_marker(comment).last() == 'T',
        end_marker(comment).last() == 'D',
{
    reveal(has_substring);
    reveal_strlit(" CONFIBLE START");
    reveal_strlit(" CONFIBLE END");
    let s = start_marker(comment);
    let e = end_marker(comment);
    let n = comment.len() as int;
    assert(s.subrange(0, s.len() as int) =~= s);
    assert(occurs_at(s, s, 0));
    assert(e.subrange(0, e.len() as int) =~= e);
    assert(occurs_at(e, e, 0));
    if has_substring(s, e) {
        let i = choose|i: int| occurs_at(s, e, i);
        assert(0 <= i <= 2);
        assert(s.subrange(i, i + e.len())[n + 10] == e[n + 10]);
        assert(e[n + 10] == 'E');
        assert(s[i + n + 10] == " CONFIBLE START"@[i + 10]);
    }
}

/// Neither sentinel holds a line terminator when the comment holds none.
proof fn lemma_sentinels_plain(comment: Seq<char>)
    requires
        no_newline(comment),
    ensures
        is_plain_line(start_marker(comment)),
        is_plain_line(end_marker(comment)),
{
    reveal_strlit(" CONFIBLE START");
    reveal_strlit(" CONFIBLE END");
    let s = start_marker(comment);
    let e = end_marker(comment);
    assert(s.last() == " CONFIBLE START"@[14]);
    assert(e.last() == " CONFIBLE END"@[12]);
    assert(no_newline(s)) by {
        assert forall|j: int| 0 <= j < s.len() implies s[j] != '\n' by {
            if j >= comment.len() {
                assert(s[j] == " CONFIBLE START"@[j - comment.len()]);
            }
        }
    }
    assert(no_newline(e)) by {
        assert forall|j: int| 0 <= j < e.len() implies e[j] != '\n' by {
            if j >= comment.len() {
                assert(e[j] == " CONFIBLE END"@[j - comment.len()]);
            }
        }
    }
}

/// A plain line with its terminator reads back as that line alone.
proof fn lemma_single_line(l: Seq<char>)
    requires
        is_plain_line(l),
    ensures
        lines_of(l + seq!['\n']) == seq![l],
{
    lemma_line_terminated(l, seq![]);
    assert(Seq::<char>::empty() + l =~= l);
}

/// The lines of a rendered block: a blank line, the start sentinel, the lines
/// of its text, a blank line and the end sentinel.
proof fn lemma_rendered_lines(comment: Seq<char>, append: Seq<char>)
    requires
        no_newline(comment),
    ensures
        lines_of(rendered(comment, append)) == seq![seq![], start_marker(comment)] + lines_of(append + "\n"@)
            + seq![seq![], end_marker(comment)],
{
    reveal_strlit("\n");
    reveal_strlit("\n\n");
    let s = start_marker(comment);
    let e = end_marker(comment);
    let nl: Seq<char> = seq!['\n'];
    let empty: Seq<char> = seq![];
    lemma_sentinels_plain(comment);
    let x1 = empty + nl;
    let x2 = s + nl;
    let x3 = append + nl;
    let x4 = empty + nl;
    let x5 = e + nl;
    assert("\n"@ =~= nl);
    assert("\n\n"@ =~= nl + nl);
    assert(x1 =~= nl);
    assert(rendered(comment, append) =~= x1 + (x2 + (x3 + (x4 + x5))));
    assert(empty.len() == 0 && strip_cr(empty) == empty && no_newline(empty));
    lemma_single_line(empty);
    lemma_single_line(s);
    lemma_single_line(e);
    lemma_lines_of_concat(x4, x5);
    lemma_lines_of_concat(x3, x4 + x5);
    lemma_lines_of_concat(x2, x3 + (x4 + x5));
    lemma_lines_of_concat(x1, x2 + (x3 + (x4 + x5)));
    assert(seq![empty] + (seq![s] + (lines_of(x3) + (seq![empty] + seq![e]))) =~= seq![empty, s]
        + lines_of(x3) + seq![empty, e]);
}

/// Adding a terminator to a text adds no occurrence of a pattern that does not end with one.
proof fn lemma_lack_with_newline(t: Seq<char>, m: Seq<char>)
    requires
        m.len() > 0,
        m.last() != '\n',
        !has_substring(t, m),
    ensures
        !has_substring(t.push('\n'), m),
{
    reveal(has_substring);
    let u = t.push('\n');
    if has_substring(u, m) {
        let i = choose|i: int| occurs_at(u, m, i);
        if i + m.len() == u.len() {
            assert(u.subrange(i, i + m.len())[m.len() - 1] == u[u.len() - 1]);
        } else {
            assert(t.subrange(i, i + m.len()) =~= u.subrange(i, i + m.len()));
            assert(occurs_at(t, m, i));
        }
    }
}

/// Lines read from a text free of sentinels hold none.
proof fn lemma_text_lines_free(t: Seq<char>, comment: Seq<char>)
    requires
        free_text(t, comment),
    ensures
        free_of_markers(lines_of(t + "\n"@), comment),
{
    reveal_strlit("\n");
    lemma_sentinels_distinct(comment);
    let u = t + "\n"@;
    let empty: Seq<char> = seq![];
    assert(empty + u =~= u);
    assert(u =~= t.push('\n'));
    lemma_lack_with_newline(t, start_marker(comment));
    lemma_lack_with_newline(t, end_marker(comment));
    lemma_lines_lack(u, empty, start_marker(comment));
    lemma_lines_lack(u, empty, end_marker(comment));
}

/// The scan over a file laid out as kept lines, an old block, and kept lines.
proof fn lemma_scan_layout(
    before: Seq<Seq<char>>,
    mid: Seq<Seq<char>>,
    after: Seq<Seq<char>>,
    comment: Seq<char>,
)
    requires
        free_of_markers(before, comment),
        free_of_markers(mid, comment),
        free_of_markers(after, comment),
    ensures
        stripped(before + (seq![seq![], start_marker(comment)] + mid + seq![seq![], end_marker(comment)] + after), comment)
            == before + after,
{
    let s = start_marker(comment);
    let e = end_marker(comment);
    let empty: Seq<char> = seq![];
    lemma_sentinels_distinct(comment);
    let lines = before + (seq![empty, s] + mid + seq![empty, e] + after);
    let to_blank = before + seq![empty];
    let to_start = to_blank + seq![s];
    let to_body = to_start + mid;
    let to_gap = to_body + seq![empty];
    let to_end = to_gap + seq![e];
    assert(lines =~= to_end + after);
    let init: ScanState = (seq![], true);
    lemma_scan_concat(init, to_end, after, s, e);
    lemma_scan_concat(init, to_gap, seq![e], s, e);
    lemma_scan_concat(init, to_body, seq![empty], s, e);
    lemma_scan_concat(init, to_start, mid, s, e);
    lemma_scan_concat(init, to_blank, seq![s], s, e);
    lemma_scan_concat(init, before, seq![empty], s, e);
    lemma_scan_keeps(seq![], before, comment);
    assert(Seq::<Seq<char>>::empty() + before =~= before);
    lemma_scan_one((before, true), empty, s, e);
    lemma_scan_one((before.push(empty), true), s, s, e);
    assert(before.push(empty).drop_last() =~= before);
    lemma_scan_skips(before, mid, comment);
    lemma_scan_one((before, false), empty, s, e);
    lemma_scan_one((before, false), e, s, e);
    lemma_scan_keeps(before, after, comment);
}

/// Replacement: syncing a file whose managed block holds `old_text` gives one
/// block holding `new_text`, at the end, after the lines that surrounded the
/// old block, in their order.
pub proof fn lemma_sync_replaces_block(
    before: Seq<Seq<char>>,
    after: Seq<Seq<char>>,
    comment: Seq<char>,
    old_text: Seq<char>,
    new_text: Seq<char>,
)
    requires
        plain_lines(before),
        plain_lines(after),
        free_of_markers(before, comment),
        free_of_markers(after, comment),
        no_newline(comment),
        free_text(old_text, comment),
    ensures
        synced(joined(before) + rendered(comment, old_text) + joined(after), comment, new_text)
            == joined(before + after) + rendered(comment, new_text),
{
    reveal_strlit("\n");
    let s = start_marker(comment);
    let e = end_marker(comment);
    let r = rendered(comment, old_text);
    let empty: Seq<char> = seq![];
    lemma_rendered_lines(comment, old_text);
    lemma_lines_of_joined(before);
    lemma_lines_of_joined(after);
    lemma_joined_ends(before);
    assert(r.last() == '\n');
    lemma_lines_of_concat(r, joined(after));
    lemma_lines_of_concat(joined(before), r + joined(after));
    assert(joined(before) + r + joined(after) =~= joined(before) + (r + joined(after)));
    let mid = lines_of(old_text + "\n"@);
    lemma_text_lines_free(old_text, comment);
    let lines = before + (seq![empty, s] + mid + seq![empty, e] + after);
    assert(lines_of(joined(before) + r + joined(after)) =~= lines);
    lemma_scan_layout(before, mid, after, comment);
}

/// Idempotence: syncing the result of a sync again, with the same comment
/// and text, changes nothing. This holds when the comment is a single line,
/// the text holds neither sentinel, and no kept line ends with a carriage
/// return (which a second read would take as part of its terminator).
pub proof fn lemma_sync_idempotent(content: Seq<char>, comment: Seq<char>, append: Seq<char>)
    requires
        no_newline(comment),
        free_text(append, comment),
        forall|k: int|
            0 <= k < stripped(lines_of(content), comment).len() ==> strip_cr(
                #[trigger] stripped(lines_of(content), comment)[k],
            ) == stripped(lines_of(content), comment)[k],
    ensures
        synced(synced(content, comment, append), comment, append) == synced(content, comment, append),
{
    let empty: Seq<Seq<char>> = seq![];
    let kept = stripped(lines_of(content), comment);
    lemma_lines_no_newline(content, seq![]);
    lemma_scan_output((empty, true), lines_of(content), comment);
    assert(plain_lines(kept));
    assert(joined(empty) =~= Seq::<char>::empty());
    assert(joined(kept) + rendered(comment, append) + joined(empty) =~= synced(content, comment, append));
    assert(kept + empty =~= kept);
    lemma_sync_replaces_block(kept, empty, comment, append, append);
}

/// Preservation: syncing a file that holds no sentinel keeps every one of its
/// lines, in order, and adds exactly one block after them.
pub proof fn lemma_sync_preserves_lines(content: Seq<char>, comment: Seq<char>, append: Seq<char>)
    requires
        free_of_markers(lines_of(content), comment),
    ensures
        synced(content, comment, append) == joined(lines_of(content)) + rendered(comment, append),
{
    let empty: Seq<Seq<char>> = seq![];
    lemma_scan_keeps(empty, lines_of(content), comment);
    assert(empty + lines_of(content) =~= lines_of(content));
}

} // verus!
