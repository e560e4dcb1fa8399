//! Splitting a long reply into message-sized chunks without breaking code
//! blocks: a chunk that ends inside a fenced block is closed with a fence and
//! the next chunk reopens it.

use vstd::prelude::*;
use crate::text::{
    chars_of, is_ws, lemma_leading_ws, lemma_split_on_absent, lemma_trailing_ws, lemma_trim_idempotent,
    lemma_trim_push_ws, leading_ws, lemma_split_on_nonempty, split_on, split_on_char, string_of, string_views,
    strip_cr, strip_cr_chars, trailing_ws, trim, trim_chars,
};

verus! {

/// The characters that close a fenced block and start a new line.
pub open spec fn fence_nl() -> Seq<char> {
    seq!['`', '`', '`', '\n']
}

/// The characters that close a fenced block at the end of the text.
pub open spec fn fence() -> Seq<char> {
    seq!['`', '`', '`']
}

/// A line opens or closes a fenced code block: trimmed, it starts with
/// three backticks.
pub open spec fn is_fence(line: Seq<char>) -> bool {
    let t = trim(line);
    t.len() >= 3 && t[0] == '`' && t[1] == '`' && t[2] == '`'
}

/// The lines of a text: split at `'\n'`, each without trailing `'\r'`.
pub open spec fn text_lines(text: Seq<char>) -> Seq<Seq<char>> {
    split_on(text, '\n').map_values(|l: Seq<char>| strip_cr(l))
}

/// Whether a fenced block is open after the given lines.
pub open spec fn fence_state(lines: Seq<Seq<char>>) -> bool
    decreases lines.len(),
{
    if lines.len() == 0 {
        false
    } else {
        fence_state(lines.drop_last()) != is_fence(lines.last())
    }
}

/// Closes the current chunk: it is trimmed and appended; inside a fenced
/// block the chunk is first closed with a fence, and the next chunk starts
/// by reopening it.
pub open spec fn flush(chunks: Seq<Seq<char>>, cur: Seq<char>, open: bool) -> (Seq<Seq<char>>, Seq<char>) {
    if open {
        (chunks.push(trim(cur + fence_nl())), fence_nl())
    } else {
        (chunks.push(trim(cur)), Seq::empty())
    }
}

/// Places the characters `rem` of a line too long for one chunk: as many as
/// fit (keeping one place for the newline) go into the current chunk, which
/// is closed whenever more remain.
pub open spec fn cut_long(
    chunks: Seq<Seq<char>>,
    cur: Seq<char>,
    rem: Seq<char>,
    open: bool,
    m: nat,
) -> (Seq<Seq<char>>, Seq<char>)
    decreases rem.len(), cur.len(),
{
    if rem.len() == 0 {
        (chunks, cur)
    } else if m <= cur.len() + 1 {
        let (c2, cur2) = flush(chunks, cur, open);
        if cur2.len() < cur.len() {
            cut_long(c2, cur2, rem, open, m)
        } else {
            (c2, cur2)
        }
    } else {
        let space = (m - cur.len() - 1) as nat;
        let n = if space < rem.len() { space } else { rem.len() };
        let cur3 = cur + rem.take(n as int);
        let rest = rem.skip(n as int);
        if rest.len() > 0 {
            let (c4, cur4) = flush(chunks, cur3, open);
            cut_long(c4, cur4, rest, open, m)
        } else {
            (chunks, cur3)
        }
    }
}

/// Adds one line to the chunking state (chunks so far, current chunk,
/// whether a fenced block is open) for chunks of at most `m` characters.
pub open spec fn line_step(
    st: (Seq<Seq<char>>, Seq<char>, bool),
    line: Seq<char>,
    m: nat,
) -> (Seq<Seq<char>>, Seq<char>, bool) {
    let chunks = st.0;
    let cur = st.1;
    let open = if is_fence(line) { !st.2 } else { st.2 };
    if cur.len() + line.len() + 1 > m {
        if line.len() + 1 > m {
            let (c, k) = cut_long(chunks, cur, line, open, m);
            (c, k.push('\n'), open)
        } else {
            let (c, k) = flush(chunks, cur, open);
            (c, k + line.push('\n'), open)
        }
    } else {
        (chunks, cur + line.push('\n'), open)
    }
}

/// The chunking state after the given lines.
pub open spec fn run_lines(lines: Seq<Seq<char>>, m: nat) -> (Seq<Seq<char>>, Seq<char>, bool)
    decreases lines.len(),
{
    if lines.len() == 0 {
        (Seq::empty(), Seq::empty(), false)
    } else {
        line_step(run_lines(lines.drop_last(), m), lines.last(), m)
    }
}

/// The chunks of `text` for chunks of at most `m` characters: the last,
/// unless blank, is closed with a fence when a block is still open.
pub open spec fn split_text_spec(text: Seq<char>, m: nat) -> Seq<Seq<char>> {
    let st = run_lines(text_lines(text), m);
    if trim(st.1).len() > 0 {
        st.0.push(trim(if st.2 { st.1 + fence() } else { st.1 }))
    } else {
        st.0
    }
}

/// The splitting comes to an end: every non-empty line longer than a chunk
/// leaves room, after the chunk is closed, for at least one more character
/// (one place is kept for the newline and, inside a fenced block, four for
/// the reopening fence).
pub open spec fn split_text_halts(text: Seq<char>, m: nat) -> bool {
    let lines = text_lines(text);
    forall|i: int|
        0 <= i < lines.len() && lines[i].len() > 0 && lines[i].len() + 1 > m ==> m > 1 + (if fence_state(
            #[trigger] lines.take(i + 1),
        ) {
            4int
        } else {
            0int
        })
}

proof fn lemma_run_lines_open(lines: Seq<Seq<char>>, m: nat)
    ensures
        run_lines(lines, m).2 == fence_state(lines),
    decreases lines.len(),
{
    if lines.len() > 0 {
        lemma_run_lines_open(lines.drop_last(), m);
    }
}

/// Appends the characters of `line` to `cur`.
fn append_chars(cur: &mut Vec<char>, line: &Vec<char>, from: usize, to: usize)
    requires
        from <= to <= line.len(),
    ensures
        final(cur)@ == old(cur)@ + line@.subrange(from as int, to as int),
{
    let mut q = from;
    while q < to
        invariant
            from <= q <= to <= line.len(),
            cur@ == old(cur)@ + line@.subrange(from as int, q as int),
        decreases to - q,
    {
        let ghost before = cur@;
        cur.push(line[q]);
        assert(before.push(line@[q as int]) =~= old(cur)@ + line@.subrange(from as int, q + 1));
        q = q + 1;
    }
}

/// Closes the current chunk (see `flush`).
fn flush_exec(chunks: &mut Vec<String>, cur: &mut Vec<char>, open: bool)
    ensures
        (string_views(final(chunks)@), final(cur)@) == flush(string_views(old(chunks)@), old(cur)@, open),
{
    if open {
        cur.push('`');
        cur.push('`');
        cur.push('`');
        cur.push('\n');
        assert(cur@ =~= old(cur)@ + fence_nl());
        let t = trim_chars(cur);
        let s = string_of(&t);
        chunks.push(s);
        let mut f: Vec<char> = Vec::new();
        f.push('`');
        f.push('`');
        f.push('`');
        f.push('\n');
        assert(f@ =~= fence_nl());
        *cur = f;
    } else {
        let t = trim_chars(cur);
        let s = string_of(&t);
        chunks.push(s);
        *cur = Vec::new();
    }
    assert(string_views(chunks@) =~= string_views(old(chunks)@).push(chunks@.last()@));
}

/// Places a line too long for one chunk (see `cut_long`).
fn cut_long_exec(chunks: &mut Vec<String>, cur: &mut Vec<char>, line: &Vec<char>, open: bool, m: usize)
    requires
        line.len() > 0 ==> m > 1 + (if open { 4int } else { 0int }),
    ensures
        (string_views(final(chunks)@), final(cur)@) == cut_long(
            string_views(old(chunks)@),
            old(cur)@,
            line@,
            open,
            m as nat,
        ),
{
    let ghost goal = cut_long(string_views(old(chunks)@), old(cur)@, line@, open, m as nat);
    let mut pos: usize = 0;
    assert(line@.skip(0) =~= line@);
    while pos < line.len()
        invariant
            pos <= line.len(),
            line.len() > 0 ==> m > 1 + (if open { 4int } else { 0int }),
            goal == cut_long(string_views(chunks@), cur@, line@.skip(pos as int), open, m as nat),
        decreases line.len() - pos, cur.len(),
    {
        let cur_len = cur.len();
        if m == 0 || cur_len >= m - 1 {
            flush_exec(chunks, cur, open);
        } else {
            let space = m - cur_len - 1;
            let left = line.len() - pos;
            let n = if space < left { space } else { left };
            let ghost rem = line@.skip(pos as int);
            append_chars(cur, line, pos, pos + n);
            assert(rem.take(n as int) =~= line@.subrange(pos as int, pos + n));
            assert(rem.skip(n as int) =~= line@.skip(pos + n));
            pos = pos + n;
            if pos < line.len() {
                flush_exec(chunks, cur, open);
            }
        }
    }
}

/// Splits `text` into chunks of at most `max_length` characters at line
/// boundaries, cutting lines that are longer than a chunk, and keeping
/// fenced code blocks intact: a chunk that ends inside a block is closed with
/// a fence, and the next one reopens it. Every chunk is trimmed.
pub fn split_text(text: &str, max_length: usize) -> (r: Vec<String>)
    requires
        split_text_halts(text@, max_length as nat),
    ensures
        string_views(r@) == split_text_spec(text@, max_length as nat),
{
    let m = max_length;
    let pieces = split_on_char(text, '\n');
    let ghost lines = text_lines(text@);
    proof {
        lemma_split_on_nonempty(text@, '\n');
    }
    let mut chunks: Vec<String> = Vec::new();
    let mut cur: Vec<char> = Vec::new();
    let mut open = false;
    let mut i: usize = 0;
    assert(lines.take(0) =~= Seq::<Seq<char>>::empty());
    while i < pieces.len()
        invariant
            i <= pieces.len(),
            lines.len() == pieces.len(),
            lines == text_lines(text@),
            string_views(pieces@) == split_on(text@, '\n'),
            split_text_halts(text@, m as nat),
            (string_views(chunks@), cur@, open) == run_lines(lines.take(i as int), m as nat),
        decreases pieces.len() - i,
    {
        let line = strip_cr_chars(chars_of(pieces[i].as_str()));
        assert(line@ == lines[i as int]);
        assert(lines.take(i + 1).drop_last() =~= lines.take(i as int));
        assert(lines.take(i + 1).last() == lines[i as int]);
        let t = trim_chars(&line);
        let fenced = t.len() >= 3 && t[0] == '`' && t[1] == '`' && t[2] == '`';
        if fenced {
            open = !open;
        }
        proof {
            lemma_run_lines_open(lines.take(i + 1), m as nat);
        }
        let line_len = line.len();
        let cur_len = cur.len();
        if cur_len >= m || line_len >= m - cur_len {
            if line_len >= m {
                cut_long_exec(&mut chunks, &mut cur, &line, open, m);
                cur.push('\n');
            } else {
                flush_exec(&mut chunks, &mut cur, open);
                append_chars(&mut cur, &line, 0, line_len);
                cur.push('\n');
                assert(line@.subrange(0, line_len as int) =~= line@);
            }
        } else {
            append_chars(&mut cur, &line, 0, line_len);
            cur.push('\n');
            assert(line@.subrange(0, line_len as int) =~= line@);
        }
        i = i + 1;
    }
    assert(lines.take(pieces.len() as int) =~= lines);
    let t = trim_chars(&cur);
    if t.len() > 0 {
        let ghost before = cur@;
        if open {
            cur.push('`');
            cur.push('`');
            cur.push('`');
            assert(cur@ =~= before + fence());
        }
        let t2 = trim_chars(&cur);
        let s = string_of(&t2);
        let ghost prior = chunks@;
        chunks.push(s);
        assert(string_views(chunks@) =~= string_views(prior).push(s@));
    }
    chunks
}


/// Every chunk in `chunks` is already trimmed.
pub open spec fn all_trimmed(chunks: Seq<Seq<char>>) -> bool {
    forall|i: int| 0 <= i < chunks.len() ==> trim(#[trigger] chunks[i]) == chunks[i]
}

/// Every chunk in `chunks` has at most `m` characters.
pub open spec fn all_within(chunks: Seq<Seq<char>>, m: nat) -> bool {
    forall|i: int| 0 <= i < chunks.len() ==> (#[trigger] chunks[i]).len() <= m
}

proof fn lemma_trim_len(s: Seq<char>)
    ensures
        trim(s).len() <= s.len(),
{
    lemma_leading_ws(s);
    let t = s.skip(leading_ws(s) as int);
    lemma_trailing_ws(t);
}

proof fn lemma_push_trimmed(chunks: Seq<Seq<char>>, s: Seq<char>)
    requires
        all_trimmed(chunks),
    ensures
        all_trimmed(chunks.push(trim(s))),
{
    lemma_trim_idempotent(s);
    assert forall|i: int| 0 <= i < chunks.len() + 1 implies trim(#[trigger] chunks.push(trim(s))[i])
        == chunks.push(trim(s))[i] by {
        if i < chunks.len() {
            assert(chunks.push(trim(s))[i] == chunks[i]);
        }
    }
}

proof fn lemma_cut_long_trimmed(chunks: Seq<Seq<char>>, cur: Seq<char>, rem: Seq<char>, open: bool, m: nat)
    requires
        all_trimmed(chunks),
    ensures
        all_trimmed(cut_long(chunks, cur, rem, open, m).0),
    decreases rem.len(), cur.len(),
{
    if rem.len() == 0 {
    } else if m <= cur.len() + 1 {
        let (c2, cur2) = flush(chunks, cur, open);
        lemma_push_trimmed(chunks, if open { cur + fence_nl() } else { cur });
        if cur2.len() < cur.len() {
            lemma_cut_long_trimmed(c2, cur2, rem, open, m);
        }
    } else {
        let space = (m - cur.len() - 1) as nat;
        let n = if space < rem.len() { space } else { rem.len() };
        let cur3 = cur + rem.take(n as int);
        let rest = rem.skip(n as int);
        if rest.len() > 0 {
            let (c4, cur4) = flush(chunks, cur3, open);
            lemma_push_trimmed(chunks, if open { cur3 + fence_nl() } else { cur3 });
            lemma_cut_long_trimmed(c4, cur4, rest, open, m);
        }
    }
}

proof fn lemma_run_lines_trimmed(lines: Seq<Seq<char>>, m: nat)
    ensures
        all_trimmed(run_lines(lines, m).0),
    decreases lines.len(),
{
    if lines.len() > 0 {
        let st = run_lines(lines.drop_last(), m);
        lemma_run_lines_trimmed(lines.drop_last(), m);
        let line = lines.last();
        let open = if is_fence(line) { !st.2 } else { st.2 };
        lemma_cut_long_trimmed(st.0, st.1, line, open, m);
        lemma_push_trimmed(st.0, if open { st.1 + fence_nl() } else { st.1 });
    }
}

/// Every chunk that `split_text` returns is trimmed: it neither starts nor
/// ends with whitespace.
pub proof fn law_chunks_trimmed(text: Seq<char>, m: nat)
    ensures
        forall|i: int| 0 <= i < split_text_spec(text, m).len() ==> trim(
            #[trigger] split_text_spec(text, m)[i],
        ) == split_text_spec(text, m)[i],
{
    let st = run_lines(text_lines(text), m);
    lemma_run_lines_trimmed(text_lines(text), m);
    lemma_push_trimmed(st.0, if st.2 { st.1 + fence() } else { st.1 });
}

proof fn lemma_cut_long_within(chunks: Seq<Seq<char>>, cur: Seq<char>, rem: Seq<char>, m: nat)
    requires
        all_within(chunks, m),
        cur.len() <= m,
        m >= 1,
    ensures
        all_within(cut_long(chunks, cur, rem, false, m).0, m),
        rem.len() > 0 ==> cut_long(chunks, cur, rem, false, m).1.len() + 1 <= m,
        rem.len() == 0 ==> cut_long(chunks, cur, rem, false, m).1 == cur,
    decreases rem.len(), cur.len(),
{
    if rem.len() == 0 {
    } else if m <= cur.len() + 1 {
        let (c2, cur2) = flush(chunks, cur, false);
        lemma_trim_len(cur);
        assert(all_within(c2, m)) by {
            assert forall|i: int| 0 <= i < c2.len() implies (#[trigger] c2[i]).len() <= m by {
                if i < chunks.len() {
                    assert(c2[i] == chunks[i]);
                }
            }
        }
        if cur2.len() < cur.len() {
            lemma_cut_long_within(c2, cur2, rem, m);
        }
    } else {
        let space = (m - cur.len() - 1) as nat;
        let n = if space < rem.len() { space } else { rem.len() };
        let cur3 = cur + rem.take(n as int);
        let rest = rem.skip(n as int);
        if rest.len() > 0 {
            let (c4, cur4) = flush(chunks, cur3, false);
            lemma_trim_len(cur3);
            assert(all_within(c4, m)) by {
                assert forall|i: int| 0 <= i < c4.len() implies (#[trigger] c4[i]).len() <= m by {
                    if i < chunks.len() {
                        assert(c4[i] == chunks[i]);
                    }
                }
            }
            lemma_cut_long_within(c4, cur4, rest, m);
        }
    }
}

proof fn lemma_run_lines_within(lines: Seq<Seq<char>>, m: nat)
    requires
        m >= 1,
        forall|i: int| 0 <= i < lines.len() ==> !is_fence(#[trigger] lines[i]),
    ensures
        all_within(run_lines(lines, m).0, m),
        run_lines(lines, m).1.len() <= m,
        !run_lines(lines, m).2,
    decreases lines.len(),
{
    if lines.len() > 0 {
        let prev = lines.drop_last();
        assert forall|i: int| 0 <= i < prev.len() implies !is_fence(#[trigger] prev[i]) by {
            assert(prev[i] == lines[i]);
        }
        lemma_run_lines_within(prev, m);
        let st = run_lines(prev, m);
        let line = lines.last();
        assert(!is_fence(lines[lines.len() - 1]));
        if st.1.len() + line.len() + 1 > m {
            if line.len() + 1 > m {
                lemma_cut_long_within(st.0, st.1, line, m);
            } else {
                lemma_trim_len(st.1);
                let c2 = st.0.push(trim(st.1));
                assert forall|i: int| 0 <= i < c2.len() implies (#[trigger] c2[i]).len() <= m by {
                    if i < st.0.len() {
                        assert(c2[i] == st.0[i]);
                    }
                }
            }
        }
    }
}

/// Without fenced code blocks, every chunk has at most `m` characters
/// (for `m` of at least one).
pub proof fn law_chunks_within_limit(text: Seq<char>, m: nat)
    requires
        m >= 1,
        forall|i: int| 0 <= i < text_lines(text).len() ==> !is_fence(#[trigger] text_lines(text)[i]),
    ensures
        forall|i: int| 0 <= i < split_text_spec(text, m).len() ==> (#[trigger] split_text_spec(text, m)[i]).len() <= m,
{
    let st = run_lines(text_lines(text), m);
    lemma_run_lines_within(text_lines(text), m);
    lemma_trim_len(st.1);
    let out = split_text_spec(text, m);
    assert forall|i: int| 0 <= i < out.len() implies (#[trigger] out[i]).len() <= m by {
        if i < st.0.len() {
            assert(out[i] == st.0[i]);
        }
    }
}

/// The lines, each followed by a newline, one after the other.
pub open spec fn lines_joined(ls: Seq<Seq<char>>) -> Seq<char>
    decreases ls.len(),
{
    if ls.len() == 0 {
        Seq::empty()
    } else {
        lines_joined(ls.drop_last()) + ls.last().push('\n')
    }
}

proof fn lemma_joined_split(s: Seq<char>)
    ensures
        lines_joined(split_on(s, '\n')) == s.push('\n'),
    decreases s.len(),
{
    if s.len() == 0 {
        let e = Seq::<char>::empty();
        assert(split_on(s, '\n') == seq![e]);
        assert(seq![e].drop_last() =~= Seq::<Seq<char>>::empty());
        assert(lines_joined(Seq::<Seq<char>>::empty()) == Seq::<char>::empty());
        assert(seq![e].last() == e);
        assert(lines_joined(seq![e]) == lines_joined(seq![e].drop_last()) + seq![e].last().push('\n'));
        assert(lines_joined(seq![e]) =~= e.push('\n'));
        assert(s =~= e);
    } else {
        let d = s.drop_last();
        lemma_joined_split(d);
        lemma_split_on_nonempty(d, '\n');
        let rest = split_on(d, '\n');
        if s.last() == '\n' {
            assert(rest.push(Seq::empty()).drop_last() =~= rest);
            assert(s =~= d.push('\n'));
            assert(lines_joined(rest.push(Seq::empty())) =~= d.push('\n') + Seq::<char>::empty().push('\n'));
            assert(lines_joined(split_on(s, '\n')) =~= s.push('\n'));
        } else {
            let u = rest.update(rest.len() - 1, rest.last().push(s.last()));
            assert(split_on(s, '\n') == u);
            assert(u.drop_last() =~= rest.drop_last());
            assert(u.last() == rest.last().push(s.last()));
            let jp = lines_joined(rest.drop_last());
            assert(lines_joined(rest) == jp + rest.last().push('\n'));
            assert(jp + rest.last().push('\n') =~= (jp + rest.last()).push('\n'));
            assert(d.push('\n').drop_last() =~= d);
            assert((jp + rest.last()).push('\n').drop_last() =~= jp + rest.last());
            assert(jp + rest.last() =~= d);
            assert(s =~= d.push(s.last()));
            assert(lines_joined(u) == jp + u.last().push('\n'));
            assert(lines_joined(u) =~= s.push('\n'));
        }
    }
}

proof fn lemma_run_lines_single(ls: Seq<Seq<char>>, m: nat)
    requires
        forall|i: int| 0 <= i < ls.len() ==> !is_fence(#[trigger] ls[i]),
        lines_joined(ls).len() <= m,
    ensures
        run_lines(ls, m) == (Seq::<Seq<char>>::empty(), lines_joined(ls), false),
    decreases ls.len(),
{
    if ls.len() > 0 {
        let prev = ls.drop_last();
        assert forall|i: int| 0 <= i < prev.len() implies !is_fence(#[trigger] prev[i]) by {
            assert(prev[i] == ls[i]);
        }
        lemma_run_lines_single(prev, m);
        assert(!is_fence(ls[ls.len() - 1]));
    }
}

/// A text that fits in one chunk comes back whole: without fence lines and
/// carriage returns, a text shorter than the limit gives exactly one chunk,
/// the trimmed text itself (every line, blank ones included, is kept), or
/// no chunk when it is blank.
pub proof fn law_short_text_is_one_chunk(text: Seq<char>, m: nat)
    requires
        text.len() < m,
        forall|t: int| 0 <= t < text.len() ==> text[t] != '\r',
        forall|i: int| 0 <= i < text_lines(text).len() ==> !is_fence(#[trigger] text_lines(text)[i]),
    ensures
        split_text_spec(text, m) == if trim(text).len() > 0 {
            seq![trim(text)]
        } else {
            Seq::<Seq<char>>::empty()
        },
{
    let pieces = split_on(text, '\n');
    lemma_split_on_absent(text, '\n', '\r');
    assert forall|i: int| 0 <= i < pieces.len() implies strip_cr(#[trigger] pieces[i]) == pieces[i] by {
        let pc = pieces[i];
        if pc.len() > 0 {
            assert(pc[pc.len() - 1] != '\r');
        }
    }
    assert(text_lines(text) =~= pieces);
    lemma_joined_split(text);
    lemma_run_lines_single(pieces, m);
    lemma_trim_push_ws(text, '\n');
}

/// The characters of `s` other than whitespace, in order.
pub open spec fn visible(s: Seq<char>) -> Seq<char>
    decreases s.len(),
{
    if s.len() == 0 {
        Seq::empty()
    } else if is_ws(s.last()) {
        visible(s.drop_last())
    } else {
        visible(s.drop_last()).push(s.last())
    }
}

/// The chunks one after the other.
pub open spec fn flatten(cs: Seq<Seq<char>>) -> Seq<char>
    decreases cs.len(),
{
    if cs.len() == 0 {
        Seq::empty()
    } else {
        flatten(cs.drop_last()) + cs.last()
    }
}

proof fn lemma_visible_concat(a: Seq<char>, b: Seq<char>)
    ensures
        visible(a + b) == visible(a) + visible(b),
    decreases b.len(),
{
    if b.len() == 0 {
        assert(a + b =~= a);
        assert(visible(a) + visible(b) =~= visible(a));
    } else {
        lemma_visible_concat(a, b.drop_last());
        assert((a + b).drop_last() =~= a + b.drop_last());
        assert((a + b).last() == b.last());
        if !is_ws(b.last()) {
            assert(visible(a) + visible(b) =~= (visible(a) + visible(b.drop_last())).push(b.last()));
        }
    }
}

proof fn lemma_visible_all_ws(s: Seq<char>)
    requires
        forall|i: int| 0 <= i < s.len() ==> is_ws(#[trigger] s[i]),
    ensures
        visible(s) == Seq::<char>::empty(),
    decreases s.len(),
{
    if s.len() > 0 {
        let d = s.drop_last();
        assert forall|i: int| 0 <= i < d.len() implies is_ws(#[trigger] d[i]) by {
            assert(d[i] == s[i]);
        }
        lemma_visible_all_ws(d);
        assert(is_ws(s[s.len() - 1]));
    }
}

proof fn lemma_visible_trim(s: Seq<char>)
    ensures
        visible(trim(s)) == visible(s),
{
    lemma_leading_ws(s);
    let l = leading_ws(s);
    let t = s.skip(l as int);
    lemma_trailing_ws(t);
    let w = trailing_ws(t);
    let core = t.take(t.len() - w);
    let pre = s.take(l as int);
    let post = t.skip(t.len() - w);
    assert(s =~= pre + t);
    assert(t =~= core + post);
    assert forall|i: int| 0 <= i < pre.len() implies is_ws(#[trigger] pre[i]) by {
        assert(pre[i] == s[i]);
    }
    assert forall|i: int| 0 <= i < post.len() implies is_ws(#[trigger] post[i]) by {
        assert(post[i] == t[t.len() - w + i]);
    }
    lemma_visible_all_ws(pre);
    lemma_visible_all_ws(post);
    lemma_visible_concat(pre, t);
    lemma_visible_concat(core, post);
    assert(visible(core) + Seq::<char>::empty() =~= visible(core));
    assert(Seq::<char>::empty() + visible(t) =~= visible(t));
}

proof fn lemma_flatten_push(cs: Seq<Seq<char>>, c: Seq<char>)
    ensures
        flatten(cs.push(c)) == flatten(cs) + c,
{
    assert(cs.push(c).drop_last() =~= cs);
}

/// Closing a chunk outside a fenced block loses no visible character.
proof fn lemma_flush_visible(chunks: Seq<Seq<char>>, cur: Seq<char>, rest: Seq<char>)
    ensures
        visible(flatten(flush(chunks, cur, false).0) + flush(chunks, cur, false).1 + rest) == visible(
            flatten(chunks) + cur + rest,
        ),
{
    lemma_flatten_push(chunks, trim(cur));
    let f = flatten(chunks);
    assert(flatten(chunks) + trim(cur) + Seq::<char>::empty() + rest =~= f + (trim(cur) + rest));
    assert(f + cur + rest =~= f + (cur + rest));
    lemma_visible_concat(f, trim(cur) + rest);
    lemma_visible_concat(f, cur + rest);
    lemma_visible_concat(trim(cur), rest);
    lemma_visible_concat(cur, rest);
    lemma_visible_trim(cur);
}

proof fn lemma_cut_long_visible(chunks: Seq<Seq<char>>, cur: Seq<char>, rem: Seq<char>, m: nat)
    requires
        m >= 2,
    ensures
        visible(flatten(cut_long(chunks, cur, rem, false, m).0) + cut_long(chunks, cur, rem, false, m).1)
            == visible(flatten(chunks) + cur + rem),
    decreases rem.len(), cur.len(),
{
    if rem.len() == 0 {
        assert(flatten(chunks) + cur + rem =~= flatten(chunks) + cur);
    } else if m <= cur.len() + 1 {
        let (c2, cur2) = flush(chunks, cur, false);
        lemma_cut_long_visible(c2, cur2, rem, m);
        lemma_flush_visible(chunks, cur, rem);
    } else {
        let space = (m - cur.len() - 1) as nat;
        let n = if space < rem.len() { space } else { rem.len() };
        let cur3 = cur + rem.take(n as int);
        let rest = rem.skip(n as int);
        assert(flatten(chunks) + cur + rem =~= flatten(chunks) + cur3 + rest);
        if rest.len() > 0 {
            let (c4, cur4) = flush(chunks, cur3, false);
            lemma_cut_long_visible(c4, cur4, rest, m);
            lemma_flush_visible(chunks, cur3, rest);
        } else {
            assert(flatten(chunks) + cur3 + rest =~= flatten(chunks) + cur3);
        }
    }
}

proof fn lemma_visible_push_ws(x: Seq<char>, c: char)
    requires
        is_ws(c),
    ensures
        visible(x.push(c)) == visible(x),
{
    assert(x.push(c).drop_last() =~= x);
}

proof fn lemma_run_lines_visible(ls: Seq<Seq<char>>, m: nat)
    requires
        m >= 2,
        forall|i: int| 0 <= i < ls.len() ==> !is_fence(#[trigger] ls[i]),
    ensures
        visible(flatten(run_lines(ls, m).0) + run_lines(ls, m).1) == visible(lines_joined(ls)),
        !run_lines(ls, m).2,
    decreases ls.len(),
{
    if ls.len() == 0 {
        assert(flatten(Seq::<Seq<char>>::empty()) + Seq::<char>::empty() =~= Seq::<char>::empty());
    } else {
        let prev = ls.drop_last();
        assert forall|i: int| 0 <= i < prev.len() implies !is_fence(#[trigger] prev[i]) by {
            assert(prev[i] == ls[i]);
        }
        lemma_run_lines_visible(prev, m);
        let st = run_lines(prev, m);
        let line = ls.last();
        assert(!is_fence(ls[ls.len() - 1]));
        let f = flatten(st.0);
        let jp = lines_joined(prev);
        lemma_visible_concat(f + st.1, line);
        lemma_visible_concat(jp, line.push('\n'));
        lemma_visible_push_ws(line, '\n');
        assert(is_ws('\n'));
        if st.1.len() + line.len() + 1 > m {
            if line.len() + 1 > m {
                let (c, k) = cut_long(st.0, st.1, line, false, m);
                lemma_cut_long_visible(st.0, st.1, line, m);
                assert(flatten(c) + k.push('\n') =~= (flatten(c) + k).push('\n'));
                lemma_visible_push_ws(flatten(c) + k, '\n');
            } else {
                lemma_flush_visible(st.0, st.1, line.push('\n'));
                assert(flatten(st.0) + st.1 + line.push('\n') =~= (f + st.1) + line.push('\n'));
                lemma_visible_concat(f + st.1, line.push('\n'));
                let (c, k) = flush(st.0, st.1, false);
                assert(flatten(c) + (k + line.push('\n')) =~= flatten(c) + k + line.push('\n'));
            }
        } else {
            assert(f + (st.1 + line.push('\n')) =~= (f + st.1) + line.push('\n'));
            lemma_visible_concat(f + st.1, line.push('\n'));
        }
    }
}

proof fn lemma_visible_strip_cr(l: Seq<char>)
    ensures
        visible(strip_cr(l)) == visible(l),
    decreases l.len(),
{
    if l.len() > 0 && l.last() == '\r' {
        lemma_visible_strip_cr(l.drop_last());
        assert(is_ws('\r'));
    }
}

proof fn lemma_visible_joined_lines(ls: Seq<Seq<char>>)
    ensures
        visible(lines_joined(ls.map_values(|l: Seq<char>| strip_cr(l)))) == visible(lines_joined(ls)),
    decreases ls.len(),
{
    if ls.len() > 0 {
        let ms = ls.map_values(|l: Seq<char>| strip_cr(l));
        assert(ms.drop_last() =~= ls.drop_last().map_values(|l: Seq<char>| strip_cr(l)));
        lemma_visible_joined_lines(ls.drop_last());
        assert(ms.last() == strip_cr(ls.last()));
        lemma_visible_concat(lines_joined(ms.drop_last()), ms.last().push('\n'));
        lemma_visible_concat(lines_joined(ls.drop_last()), ls.last().push('\n'));
        lemma_visible_push_ws(ms.last(), '\n');
        lemma_visible_push_ws(ls.last(), '\n');
        lemma_visible_strip_cr(ls.last());
    }
}

/// Chunking loses, adds and reorders no text: without fenced code blocks
/// (which add fence lines) and for chunks of at least two characters, the
/// chunks one after the other hold exactly the text's characters other
/// than whitespace, in order.
pub proof fn law_chunks_keep_text(text: Seq<char>, m: nat)
    requires
        m >= 2,
        forall|i: int| 0 <= i < text_lines(text).len() ==> !is_fence(#[trigger] text_lines(text)[i]),
    ensures
        visible(flatten(split_text_spec(text, m))) == visible(text),
{
    let ls = text_lines(text);
    lemma_run_lines_visible(ls, m);
    let st = run_lines(ls, m);
    lemma_visible_joined_lines(split_on(text, '\n'));
    lemma_joined_split(text);
    lemma_visible_push_ws(text, '\n');
    assert(is_ws('\n'));
    lemma_visible_concat(flatten(st.0), st.1);
    if trim(st.1).len() > 0 {
        lemma_flatten_push(st.0, trim(st.1));
        lemma_visible_concat(flatten(st.0), trim(st.1));
        lemma_visible_trim(st.1);
    } else {
        lemma_visible_trim(st.1);
        assert(visible(trim(st.1)) == Seq::<char>::empty()) by {
            assert(trim(st.1) =~= Seq::<char>::empty());
        }
        assert(visible(flatten(st.0)) + Seq::<char>::empty() =~= visible(flatten(st.0)));
    }
}

} // verus!
