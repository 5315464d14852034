//! The aggregate formatter: a day's entries as one text of `[HH:MM] content`
//! lines, and back from such a text to the bare contents.
use vstd::prelude::*;
use crate::clock::{clock_label, Stamp};
use crate::entry::NoteEntry;
use crate::text::{
    chars_of, free_of, index_of, is_blank, is_trimmed, join_lines, lemma_index_of_at, lemma_index_of_bounds, lemma_join_push,
    lemma_not_blank, lemma_split_free, lemma_split_join, lemma_trim_free, lemma_trim_space_first,
    lemma_trim_trimmed, lemma_trim_trimmed_same, push_all, split_lines, string_of, trim, trim_bounds,
};

verus! {

/// `[HH:MM] content`, with the local time of `at`.
pub open spec fn line_of(at: Stamp, content: Seq<char>) -> Seq<char> {
    seq!['['] + clock_label(at) + seq![']', ' '] + content
}

/// The views of a sequence of strings.
pub open spec fn views(v: Seq<String>) -> Seq<Seq<char>> {
    v.map_values(|s: String| s@)
}

/// The lines of the entries, in their order.
pub open spec fn entry_lines(es: Seq<NoteEntry>) -> Seq<Seq<char>> {
    es.map_values(|e: NoteEntry| line_of(e.created_at, e.content@))
}

/// The aggregate of a sequence of entries: one line each, joined by newlines.
pub open spec fn entries_text(es: Seq<NoteEntry>) -> Seq<char> {
    join_lines(entry_lines(es))
}

/// Does the line carry a bracket prefix: a leading `[` and a later `]`?
pub open spec fn has_prefix(l: Seq<char>) -> bool {
    l.len() > 0 && l[0] == '[' && index_of(l, ']') > 0
}

/// The content of one line: what follows the first `]` when the line has a
/// bracket prefix, else the whole line; trimmed either way.
pub open spec fn content_of_line(l: Seq<char>) -> Seq<char> {
    if has_prefix(l) {
        trim(l.subrange(index_of(l, ']') + 1, l.len() as int))
    } else {
        trim(l)
    }
}

/// The contents of the non-blank lines, in order.
pub open spec fn contents_of_lines(ls: Seq<Seq<char>>) -> Seq<Seq<char>>
    decreases ls.len(),
{
    if ls.len() == 0 {
        Seq::<Seq<char>>::empty()
    } else {
        let rest = contents_of_lines(ls.drop_last());
        if is_blank(ls.last()) {
            rest
        } else {
            rest.push(content_of_line(ls.last()))
        }
    }
}

/// The contents of a text: its non-blank lines without their bracket prefix.
pub open spec fn text_contents(s: Seq<char>) -> Seq<Seq<char>> {
    contents_of_lines(split_lines(s))
}

/// The characters of `[HH:MM] content`.
pub fn format_line(at: &Stamp, content: &str) -> (r: Vec<char>)
    requires
        at.wf(),
    ensures
        r@ == line_of(*at, content@),
{
    let mut r: Vec<char> = Vec::new();
    r.push('[');
    let label = at.clock_label();
    push_all(&mut r, &label);
    r.push(']');
    r.push(' ');
    let cs = chars_of(content);
    push_all(&mut r, &cs);
    assert(r@ =~= line_of(*at, content@));
    r
}

/// The aggregate of the entries, in the order given.
pub fn entries_to_text(entries: &Vec<NoteEntry>) -> (r: String)
    requires
        forall|i: int| 0 <= i < entries@.len() ==> (#[trigger] entries@[i]).wf(),
    ensures
        r@ == entries_text(entries@),
{
    let mut out: Vec<char> = Vec::new();
    let mut i: usize = 0;
    while i < entries.len()
        invariant
            i <= entries@.len(),
            forall|k: int| 0 <= k < entries@.len() ==> (#[trigger] entries@[k]).wf(),
            out@ == entries_text(entries@.subrange(0, i as int)),
        decreases entries@.len() - i,
    {
        let e = &entries[i];
        let line = format_line(&e.created_at, e.content.as_str());
        if i > 0 {
            out.push('\n');
        }
        push_all(&mut out, &line);
        proof {
            let pre = entries@.subrange(0, i as int);
            let next = entries@.subrange(0, i + 1);
            assert(next.drop_last() =~= pre);
            assert(entry_lines(next).drop_last() =~= entry_lines(pre));
            if i == 0 {
                assert(entry_lines(next) =~= seq![line@]);
            }
        }
        i = i + 1;
    }
    assert(entries@.subrange(0, entries@.len() as int) =~= entries@);
    string_of(&out, 0, out.len())
}

/// Index of the first `']'` in `cs[lo..hi]`, relative to `lo`.
fn find_close(cs: &Vec<char>, lo: usize, hi: usize) -> (r: Option<usize>)
    requires
        lo <= hi <= cs@.len(),
    ensures
        match r {
            Some(j) => j == index_of(cs@.subrange(lo as int, hi as int), ']') && j < hi - lo,
            None => index_of(cs@.subrange(lo as int, hi as int), ']') == -1,
        },
{
    let mut found: Option<usize> = None;
    let mut k: usize = lo;
    while k < hi
        invariant
            lo <= k <= hi <= cs@.len(),
            match found {
                Some(j) => j == index_of(cs@.subrange(lo as int, k as int), ']') && j < k - lo,
                None => index_of(cs@.subrange(lo as int, k as int), ']') == -1,
            },
        decreases hi - k,
    {
        proof {
            let t = cs@.subrange(lo as int, k + 1);
            assert(t.drop_last() =~= cs@.subrange(lo as int, k as int));
            assert(t.last() == cs@[k as int]);
        }
        if found.is_none() && cs[k] == ']' {
            found = Some(k - lo);
        }
        k = k + 1;
    }
    found
}

/// The content of the line `cs[lo..hi]`, or `None` when the line is blank.
fn line_content(cs: &Vec<char>, lo: usize, hi: usize) -> (r: Option<String>)
    requires
        lo <= hi <= cs@.len(),
    ensures
        ({
            let l = cs@.subrange(lo as int, hi as int);
            if is_blank(l) {
                r is None
            } else {
                r matches Some(c) && c@ == content_of_line(l)
            }
        }),
{
    let ghost l = cs@.subrange(lo as int, hi as int);
    let (a, b) = trim_bounds(cs, lo, hi);
    if a == b {
        return None;
    }
    let close = find_close(cs, lo, hi);
    match close {
        Some(j) => {
            if cs[lo] == '[' && j > 0 {
                let start = lo + j + 1;
                let (c, d) = trim_bounds(cs, start, hi);
                assert(cs@.subrange(start as int, hi as int) =~= l.subrange(j + 1, l.len() as int));
                return Some(string_of(cs, c, d));
            }
        }
        None => {}
    }
    Some(string_of(cs, a, b))
}

proof fn lemma_contents_push(done: Seq<Seq<char>>, line: Seq<char>)
    ensures
        contents_of_lines(done.push(line)) == (if is_blank(line) {
            contents_of_lines(done)
        } else {
            contents_of_lines(done).push(content_of_line(line))
        }),
{
    assert(done.push(line).drop_last() =~= done);
}

/// The contents of a text: each non-blank line, without a leading bracket
/// prefix, trimmed. Only contents come back, never the times in the prefixes.
pub fn text_to_contents(text: &str) -> (r: Vec<String>)
    ensures
        views(r@) == text_contents(text@),
{
    let cs = chars_of(text);
    let n = cs.len();
    let mut out: Vec<String> = Vec::new();
    let ghost mut done: Seq<Seq<char>> = Seq::empty();
    let mut start: usize = 0;
    let mut i: usize = 0;
    assert(cs@.subrange(0, 0) =~= Seq::<char>::empty());
    assert(split_lines(Seq::<char>::empty()) =~= done.push(Seq::<char>::empty()));
    assert(views(out@) =~= Seq::<Seq<char>>::empty());
    while i < n
        invariant
            n == cs@.len(),
            cs@ == text@,
            start <= i <= n,
            split_lines(cs@.subrange(0, i as int)) == done.push(cs@.subrange(start as int, i as int)),
            views(out@) == contents_of_lines(done),
        decreases n - i,
    {
        let ghost pre = cs@.subrange(0, i as int);
        assert(cs@.subrange(0, i + 1).drop_last() =~= pre);
        assert(cs@.subrange(0, i + 1).last() == cs@[i as int]);
        if cs[i] == '\n' {
            let line = line_content(&cs, start, i);
            let ghost old_out = out@;
            proof {
                lemma_contents_push(done, cs@.subrange(start as int, i as int));
                done = done.push(cs@.subrange(start as int, i as int));
            }
            match line {
                Some(c) => {
                    out.push(c);
                    assert(views(out@) =~= views(old_out).push(c@));
                }
                None => {}
            }
            start = i + 1;
            assert(cs@.subrange(start as int, i + 1) =~= Seq::<char>::empty());
        } else {
            assert(cs@.subrange(start as int, i + 1) =~= cs@.subrange(start as int, i as int).push(cs@[i as int]));
        }
        i = i + 1;
    }
    let line = line_content(&cs, start, n);
    let ghost old_out = out@;
    proof {
        assert(cs@.subrange(0, n as int) =~= cs@);
        lemma_contents_push(done, cs@.subrange(start as int, n as int));
        done = done.push(cs@.subrange(start as int, n as int));
    }
    match line {
        Some(c) => {
            out.push(c);
            assert(views(out@) =~= views(old_out).push(c@));
        }
        None => {}
    }
    out
}

/// Holds more than whitespace.
pub open spec fn not_blank() -> spec_fn(Seq<char>) -> bool {
    |l: Seq<char>| !is_blank(l)
}

/// A line without the carriage return that ends it, if one does.
pub open spec fn strip_cr(l: Seq<char>) -> Seq<char> {
    if l.len() > 0 && l.last() == '\r' {
        l.drop_last()
    } else {
        l
    }
}

/// The lines of a text as `str::lines` gives them: split at each `'\n'`,
/// each line that a newline ends without a `'\r'` just before it.
pub open spec fn line_bodies(s: Seq<char>) -> Seq<Seq<char>> {
    let ls = split_lines(s);
    ls.drop_last().map_values(|l: Seq<char>| strip_cr(l)).push(ls.last())
}

/// The lines of a text that hold more than whitespace.
pub open spec fn nonblank_lines(s: Seq<char>) -> Seq<Seq<char>> {
    line_bodies(s).filter(not_blank())
}

/// `line` as the next non-blank line after those of `done`, if it is one.
fn keep_line(cs: &Vec<char>, lo: usize, hi: usize, out: &mut Vec<String>, Ghost(done): Ghost<Seq<Seq<char>>>)
    requires
        lo <= hi <= cs@.len(),
        views(old(out)@) == done.filter(not_blank()),
    ensures
        views(final(out)@) == done.push(cs@.subrange(lo as int, hi as int)).filter(not_blank()),
{
    let ghost line = cs@.subrange(lo as int, hi as int);
    let ghost old_out = out@;
    proof {
        assert(done.push(line).drop_last() =~= done);
        crate::table::lemma_filter_last(done.push(line), not_blank());
    }
    let (a, b) = trim_bounds(cs, lo, hi);
    if a < b {
        out.push(string_of(cs, lo, hi));
        assert(views(out@) =~= views(old_out).push(line));
    }
}

/// The non-blank lines of a text, a line ending in `"\r\n"` without its
/// `'\r'`, as `str::lines` gives them.
pub fn text_lines(text: &str) -> (r: Vec<String>)
    ensures
        views(r@) == nonblank_lines(text@),
{
    let cs = chars_of(text);
    let n = cs.len();
    let mut out: Vec<String> = Vec::new();
    let ghost mut done: Seq<Seq<char>> = Seq::empty();
    let ghost mut bodies: Seq<Seq<char>> = Seq::empty();
    let mut start: usize = 0;
    let mut i: usize = 0;
    assert(cs@.subrange(0, 0) =~= Seq::<char>::empty());
    assert(split_lines(Seq::<char>::empty()) =~= done.push(Seq::<char>::empty()));
    assert(views(out@) =~= Seq::<Seq<char>>::empty());
    assert(bodies =~= done.map_values(|l: Seq<char>| strip_cr(l)));
    while i < n
        invariant
            n == cs@.len(),
            cs@ == text@,
            start <= i <= n,
            split_lines(cs@.subrange(0, i as int)) == done.push(cs@.subrange(start as int, i as int)),
            bodies == done.map_values(|l: Seq<char>| strip_cr(l)),
            views(out@) == bodies.filter(not_blank()),
        decreases n - i,
    {
        assert(cs@.subrange(0, i + 1).drop_last() =~= cs@.subrange(0, i as int));
        assert(cs@.subrange(0, i + 1).last() == cs@[i as int]);
        if cs[i] == '\n' {
            let end = if i > start && cs[i - 1] == '\r' {
                i - 1
            } else {
                i
            };
            let ghost line = cs@.subrange(start as int, i as int);
            assert(cs@.subrange(start as int, end as int) =~= strip_cr(line));
            keep_line(&cs, start, end, &mut out, Ghost(bodies));
            proof {
                done = done.push(line);
                bodies = bodies.push(strip_cr(line));
                assert(bodies =~= done.map_values(|l: Seq<char>| strip_cr(l)));
            }
            start = i + 1;
            assert(cs@.subrange(start as int, i + 1) =~= Seq::<char>::empty());
        } else {
            assert(cs@.subrange(start as int, i + 1) =~= cs@.subrange(start as int, i as int).push(cs@[i as int]));
        }
        i = i + 1;
    }
    keep_line(&cs, start, n, &mut out, Ghost(bodies));
    proof {
        assert(cs@.subrange(0, n as int) =~= cs@);
        let ls = done.push(cs@.subrange(start as int, n as int));
        assert(ls.drop_last() =~= done);
        assert(line_bodies(text@) =~= bodies.push(cs@.subrange(start as int, n as int)));
    }
    out
}

/// The shape of `[HH:MM] content`: eight characters, then the content.
pub proof fn lemma_line_shape(at: Stamp, c: Seq<char>)
    ensures
        line_of(at, c).len() == c.len() + 8,
        line_of(at, c)[0] == '[',
        line_of(at, c).subrange(8, c.len() + 8 as int) == c,
        line_of(at, c).subrange(7, c.len() + 8 as int) == seq![' '] + c,
        index_of(line_of(at, c), ']') == 6,
        free_of(c, '\n') ==> free_of(line_of(at, c), '\n'),
{
    let l = line_of(at, c);
    assert(l.subrange(8, c.len() + 8 as int) =~= c);
    assert(l.subrange(7, c.len() + 8 as int) =~= seq![' '] + c);
    assert(l[6] == ']');
    assert forall|i: int| 0 <= i < 6 implies l[i] != ']' by {}
    lemma_index_of_at(l, ']', 6);
    if free_of(c, '\n') {
        assert forall|i: int| 0 <= i < l.len() implies l[i] != '\n' by {
            if i >= 8 {
                assert(l[i] == c[i - 8]);
            }
        }
    }
}

/// A formatted line is not blank, and its content is the trimmed content
/// that went into it.
pub proof fn lemma_line_content(at: Stamp, c: Seq<char>)
    requires
        is_trimmed(c),
    ensures
        !is_blank(line_of(at, c)),
        content_of_line(line_of(at, c)) == c,
{
    let l = line_of(at, c);
    lemma_line_shape(at, c);
    lemma_not_blank(l);
    assert(has_prefix(l));
    lemma_trim_space_first(c);
    lemma_trim_trimmed_same(c);
}

/// The contents of the lines of entries are the entries' contents, when
/// those are trimmed.
pub proof fn lemma_entries_contents(es: Seq<NoteEntry>, cs: Seq<Seq<char>>)
    requires
        es.len() == cs.len(),
        forall|i: int| 0 <= i < es.len() ==> (#[trigger] es[i]).content@ == cs[i] && is_trimmed(cs[i]),
    ensures
        contents_of_lines(entry_lines(es)) == cs,
    decreases es.len(),
{
    if es.len() > 0 {
        let pre = es.drop_last();
        lemma_entries_contents(pre, cs.drop_last());
        assert(entry_lines(es).drop_last() =~= entry_lines(pre));
        assert(es.last() == es[es.len() - 1]);
        lemma_line_content(es.last().created_at, cs.last());
        assert(cs.drop_last().push(cs.last()) =~= cs);
    } else {
        assert(cs =~= Seq::<Seq<char>>::empty());
    }
}

/// The content of a line without newlines is trimmed and without newlines.
pub proof fn lemma_content_clean(l: Seq<char>)
    requires
        free_of(l, '\n'),
    ensures
        is_trimmed(content_of_line(l)),
        free_of(content_of_line(l), '\n'),
{
    lemma_index_of_bounds(l, ']');
    if has_prefix(l) {
        let t = l.subrange(index_of(l, ']') + 1, l.len() as int);
        assert forall|i: int| 0 <= i < t.len() implies t[i] != '\n' by {
            assert(t[i] == l[index_of(l, ']') + 1 + i]);
        }
        lemma_trim_free(t, '\n');
        lemma_trim_trimmed(t);
    } else {
        lemma_trim_free(l, '\n');
        lemma_trim_trimmed(l);
    }
}

proof fn lemma_lines_contents_clean(ls: Seq<Seq<char>>)
    requires
        forall|i: int| 0 <= i < ls.len() ==> free_of(#[trigger] ls[i], '\n'),
    ensures
        forall|i: int|
            0 <= i < contents_of_lines(ls).len() ==> is_trimmed(#[trigger] contents_of_lines(ls)[i])
                && free_of(contents_of_lines(ls)[i], '\n'),
    decreases ls.len(),
{
    if ls.len() > 0 {
        let pre = ls.drop_last();
        assert forall|i: int| 0 <= i < pre.len() implies free_of(#[trigger] pre[i], '\n') by {
            assert(pre[i] == ls[i]);
        }
        lemma_lines_contents_clean(pre);
        assert(ls.last() == ls[ls.len() - 1]);
        lemma_content_clean(ls.last());
        let rest = contents_of_lines(pre);
        if !is_blank(ls.last()) {
            let q = rest.push(content_of_line(ls.last()));
            assert forall|i: int| 0 <= i < q.len() implies is_trimmed(#[trigger] q[i]) && free_of(q[i], '\n') by {
                if i < rest.len() {
                    assert(q[i] == rest[i]);
                }
            }
        }
    }
}

/// The contents of any text are trimmed and hold no newline.
pub proof fn lemma_contents_clean(s: Seq<char>)
    ensures
        forall|i: int|
            0 <= i < text_contents(s).len() ==> is_trimmed(#[trigger] text_contents(s)[i])
                && free_of(text_contents(s)[i], '\n'),
{
    lemma_split_free(s);
    lemma_lines_contents_clean(split_lines(s));
}

/// The aggregate of entries whose contents are clean reads back as exactly
/// those contents.
pub proof fn lemma_entries_text_contents(es: Seq<NoteEntry>, cs: Seq<Seq<char>>)
    requires
        es.len() == cs.len(),
        forall|i: int|
            0 <= i < es.len() ==> (#[trigger] es[i]).content@ == cs[i] && is_trimmed(cs[i]) && free_of(
                cs[i],
                '\n',
            ),
    ensures
        text_contents(entries_text(es)) == cs,
{
    let ls = entry_lines(es);
    if es.len() == 0 {
        assert(ls =~= Seq::<Seq<char>>::empty());
        assert(entries_text(es) =~= Seq::<char>::empty());
        let e = Seq::<char>::empty();
        assert(split_lines(e) == seq![e]);
        assert(seq![e].drop_last() =~= Seq::<Seq<char>>::empty());
        assert(seq![e].last() == e);
        assert(trim(e) =~= e);
        assert(is_blank(e));
        assert(contents_of_lines(seq![e]) == contents_of_lines(Seq::<Seq<char>>::empty()));
        assert(cs =~= Seq::<Seq<char>>::empty());
    } else {
        assert forall|i: int| 0 <= i < ls.len() implies free_of(#[trigger] ls[i], '\n') by {
            lemma_line_shape(es[i].created_at, es[i].content@);
        }
        lemma_split_join(ls);
        assert forall|i: int| 0 <= i < es.len() implies (#[trigger] es[i]).content@ == cs[i] && is_trimmed(cs[i]) by {}
        lemma_entries_contents(es, cs);
    }
}

/// The aggregate of entries with one more at the end.
pub proof fn lemma_entries_text_push(es: Seq<NoteEntry>, e: NoteEntry)
    ensures
        entries_text(es.push(e)) == (if es.len() == 0 {
            line_of(e.created_at, e.content@)
        } else {
            entries_text(es) + seq!['\n'] + line_of(e.created_at, e.content@)
        }),
        es.len() > 0 ==> entries_text(es).len() > 0,
{
    let l = line_of(e.created_at, e.content@);
    assert(entry_lines(es.push(e)) =~= entry_lines(es).push(l));
    lemma_join_push(entry_lines(es), l);
    if es.len() > 0 {
        let last = es.last();
        assert(entry_lines(es).last() == line_of(last.created_at, last.content@));
        lemma_line_shape(last.created_at, last.content@);
    }
}

} // verus!
