//! Text as sequences of characters: splitting at a separator, lines, words,
//! joining and searching.

use vstd::prelude::*;

verus! {

/// `String::push` appends one character at the end of the string.
pub assume_specification[ String::push ](s: &mut String, ch: char)
    ensures
        final(s)@ == old(s)@.push(ch),
;

/// The characters of `s`, in order, as a vector.
pub fn str_chars(s: &str) -> (v: Vec<char>)
    ensures
        v@ == s@,
{
    let mut v: Vec<char> = Vec::new();
    for c in it: s.chars()
        invariant
            v@ == it.seq().take(it.index() as int),
    {
        v.push(c);
    }
    v
}

/// The characters `cs[lo..hi]` gathered into a new string.
pub fn string_from_range(cs: &Vec<char>, lo: usize, hi: usize) -> (s: String)
    requires
        lo <= hi <= cs.len(),
    ensures
        s@ == cs@.subrange(lo as int, hi as int),
{
    let mut s = String::new();
    let mut i = lo;
    while i < hi
        invariant
            lo <= i <= hi <= cs.len(),
            s@ == cs@.subrange(lo as int, i as int),
        decreases hi - i,
    {
        s.push(cs[i]);
        assert(cs@.subrange(lo as int, i + 1) == cs@.subrange(lo as int, i as int).push(cs@[i as int]));
        i += 1;
    }
    s
}


/// The views of a sequence of strings.
pub open spec fn views(v: Seq<String>) -> Seq<Seq<char>> {
    v.map_values(|x: String| x@)
}

/// The pieces of `s` between occurrences of `sep`, as `str::split` with a
/// `char` pattern yields them: `k` separators give `k + 1` pieces, so the
/// empty text gives one empty piece.
pub open spec fn split_on(s: Seq<char>, sep: char) -> Seq<Seq<char>>
    decreases s.len(),
{
    if s.len() == 0 {
        seq![Seq::<char>::empty()]
    } else {
        let prev = split_on(s.drop_last(), sep);
        if s.last() == sep {
            prev.push(Seq::<char>::empty())
        } else {
            prev.update(prev.len() - 1, prev.last().push(s.last()))
        }
    }
}

/// There is always at least one piece.
pub proof fn lemma_split_on_nonempty(s: Seq<char>, sep: char)
    ensures
        split_on(s, sep).len() >= 1,
    decreases s.len(),
{
    if s.len() > 0 {
        lemma_split_on_nonempty(s.drop_last(), sep);
    }
}

/// Splits `cs[lo..hi]` at every `sep`.
pub fn split_range(cs: &Vec<char>, lo: usize, hi: usize, sep: char) -> (fields: Vec<String>)
    requires
        lo <= hi <= cs.len(),
    ensures
        views(fields@) == split_on(cs@.subrange(lo as int, hi as int), sep),
{
    let mut fields: Vec<String> = Vec::new();
    let mut start = lo;
    let mut i = lo;
    assert(cs@.subrange(lo as int, lo as int) =~= Seq::<char>::empty());
    assert(views(fields@) =~= Seq::<Seq<char>>::empty());
    while i < hi
        invariant
            lo <= start <= i <= hi <= cs.len(),
            split_on(cs@.subrange(lo as int, i as int), sep)
                == views(fields@).push(cs@.subrange(start as int, i as int)),
        decreases hi - i,
    {
        let ghost prev = cs@.subrange(lo as int, i as int);
        let ghost cur = cs@.subrange(lo as int, i + 1);
        assert(cur.drop_last() =~= prev);
        assert(cur.last() == cs@[i as int]);
        assert(cs@.subrange(start as int, i + 1) =~= cs@.subrange(start as int, i as int).push(cs@[i as int]));
        let ghost old_views = views(fields@);
        if cs[i] == sep {
            let piece = string_from_range(cs, start, i);
            fields.push(piece);
            assert(views(fields@) =~= old_views.push(piece@));
            start = i + 1;
            assert(cs@.subrange(start as int, i + 1) =~= Seq::<char>::empty());
            assert(split_on(cur, sep) =~= views(fields@).push(Seq::<char>::empty()));
        } else {
            assert(split_on(cur, sep) =~= old_views.push(cs@.subrange(start as int, i + 1)));
        }
        i += 1;
    }
    let piece = string_from_range(cs, start, hi);
    fields.push(piece);
    assert(views(fields@) =~= views(fields@.drop_last()).push(piece@));
    fields
}


/// `l` without one trailing carriage return, if it has one.
pub open spec fn strip_cr(l: Seq<char>) -> Seq<char> {
    if l.len() > 0 && l.last() == '\r' {
        l.drop_last()
    } else {
        l
    }
}

/// The lines of `s`, as `str::lines` yields them: the text is cut at each
/// `'\n'`, a line ended by `"\r\n"` loses its `'\r'`, and a final line
/// ending adds no empty line (so the empty text has no lines).
pub open spec fn lines_of(s: Seq<char>) -> Seq<Seq<char>> {
    let parts = split_on(s, '\n');
    let ended = parts.drop_last().map_values(|l: Seq<char>| strip_cr(l));
    if parts.last().len() == 0 {
        ended
    } else {
        ended.push(parts.last())
    }
}

/// The texts that a list of index ranges select in `cs`.
pub open spec fn ranges_text(cs: Seq<char>, bounds: Seq<(usize, usize)>) -> Seq<Seq<char>> {
    bounds.map_values(|b: (usize, usize)| cs.subrange(b.0 as int, b.1 as int))
}

/// Every range lies within `len` characters.
pub open spec fn ranges_within(bounds: Seq<(usize, usize)>, len: nat) -> bool {
    forall|k: int| 0 <= k < bounds.len() ==> #[trigger] bounds[k].0 <= bounds[k].1 <= len
}

/// The index ranges of the lines of `cs` (see `lines_of`).
pub fn line_ranges(cs: &Vec<char>) -> (bounds: Vec<(usize, usize)>)
    ensures
        ranges_within(bounds@, cs@.len()),
        ranges_text(cs@, bounds@) == lines_of(cs@),
{
    let n = cs.len();
    let mut bounds: Vec<(usize, usize)> = Vec::new();
    let mut start: usize = 0;
    let mut i: usize = 0;
    assert(cs@.subrange(0, 0) =~= Seq::<char>::empty());
    assert(ranges_text(cs@, bounds@) =~= Seq::<Seq<char>>::empty());
    while i < n
        invariant
            n == cs.len(),
            start <= i <= n,
            ranges_within(bounds@, n as nat),
            ({
                let parts = split_on(cs@.subrange(0, i as int), '\n');
                &&& parts.drop_last().map_values(|l: Seq<char>| strip_cr(l)) == ranges_text(cs@, bounds@)
                &&& parts.last() == cs@.subrange(start as int, i as int)
            }),
        decreases n - i,
    {
        let ghost prev = cs@.subrange(0, i as int);
        let ghost cur = cs@.subrange(0, i + 1);
        let ghost parts = split_on(prev, '\n');
        proof {
            lemma_split_on_nonempty(prev, '\n');
        }
        assert(cur.drop_last() =~= prev);
        assert(cs@.subrange(start as int, i + 1) =~= cs@.subrange(start as int, i as int).push(cs@[i as int]));
        let ghost old_text = ranges_text(cs@, bounds@);
        if cs[i] == '\n' {
            let end = if i > start && cs[i - 1] == '\r' { i - 1 } else { i };
            assert(strip_cr(cs@.subrange(start as int, i as int)) =~= cs@.subrange(start as int, end as int));
            bounds.push((start, end));
            assert(ranges_text(cs@, bounds@) =~= old_text.push(cs@.subrange(start as int, end as int)));
            let ghost next_parts = split_on(cur, '\n');
            assert(next_parts == parts.push(Seq::<char>::empty()));
            assert(next_parts.drop_last() =~= parts);
            assert(parts =~= parts.drop_last().push(parts.last()));
            assert(next_parts.drop_last().map_values(|l: Seq<char>| strip_cr(l)) =~= ranges_text(cs@, bounds@));
            start = i + 1;
            assert(cs@.subrange(start as int, i + 1) =~= Seq::<char>::empty());
        } else {
            let ghost next_parts = split_on(cur, '\n');
            assert(next_parts.drop_last() =~= parts.drop_last());
        }
        i += 1;
    }
    assert(cs@.subrange(0, n as int) =~= cs@);
    proof {
        lemma_split_on_nonempty(cs@, '\n');
    }
    if start < n {
        let ghost old_text = ranges_text(cs@, bounds@);
        bounds.push((start, n));
        assert(ranges_text(cs@, bounds@) =~= old_text.push(cs@.subrange(start as int, n as int)));
    }
    bounds
}


/// `p` occurs in `s` as a contiguous piece.
pub open spec fn has_infix(s: Seq<char>, p: Seq<char>) -> bool {
    exists|i: int| 0 <= i && i + p.len() <= s.len() && #[trigger] s.subrange(i, i + p.len()) == p
}

/// Whether `p` occurs in `s`, as `str::contains` with a string pattern.
pub fn contains_text(s: &str, p: &str) -> (r: bool)
    ensures
        r == has_infix(s@, p@),
{
    let sc = str_chars(s);
    let pc = str_chars(p);
    let n = sc.len();
    let m = pc.len();
    if m > n {
        proof {
            assert forall|i: int| 0 <= i && i + p@.len() <= s@.len() implies #[trigger] s@.subrange(i, i + p@.len()) != p@ by {}
        }
        return false;
    }
    let mut i: usize = 0;
    while i <= n - m
        invariant
            sc@ == s@,
            pc@ == p@,
            n == sc.len(),
            m == pc.len(),
            m <= n,
            i <= n - m + 1,
            forall|j: int| 0 <= j < i ==> #[trigger] s@.subrange(j, j + p@.len()) != p@,
        decreases n - m + 1 - i,
    {
        let mut k: usize = 0;
        while k < m && sc[i + k] == pc[k]
            invariant
                sc@ == s@,
                pc@ == p@,
                n == sc.len(),
                m == pc.len(),
                i + m <= n,
                k <= m,
                forall|t: int| 0 <= t < k ==> sc@[i + t] == pc@[t],
            decreases m - k,
        {
            k += 1;
        }
        if k == m {
            assert(s@.subrange(i as int, i + p@.len()) =~= p@);
            return true;
        }
        assert(s@.subrange(i as int, i + p@.len())[k as int] != p@[k as int]);
        i += 1;
    }
    false
}


/// `c` has the Unicode `White_Space` property, as `char::is_whitespace`
/// tests it.
pub open spec fn is_white(c: char) -> bool {
    ||| ('\u{9}' <= c && c <= '\u{d}')
    ||| c == ' '
    ||| c == '\u{85}'
    ||| c == '\u{a0}'
    ||| c == '\u{1680}'
    ||| ('\u{2000}' <= c && c <= '\u{200a}')
    ||| c == '\u{2028}'
    ||| c == '\u{2029}'
    ||| c == '\u{202f}'
    ||| c == '\u{205f}'
    ||| c == '\u{3000}'
}

/// `char::is_whitespace`.
pub fn is_whitespace(c: char) -> (r: bool)
    ensures
        r == is_white(c),
{
    ('\u{9}' <= c && c <= '\u{d}') || c == ' ' || c == '\u{85}' || c == '\u{a0}' || c == '\u{1680}'
        || ('\u{2000}' <= c && c <= '\u{200a}') || c == '\u{2028}' || c == '\u{2029}'
        || c == '\u{202f}' || c == '\u{205f}' || c == '\u{3000}'
}

/// The words of `s`, as `str::split_whitespace` yields them: the maximal
/// runs of characters that are not white space.
pub open spec fn words(s: Seq<char>) -> Seq<Seq<char>>
    decreases s.len(),
{
    if s.len() == 0 {
        Seq::<Seq<char>>::empty()
    } else {
        let prev = words(s.drop_last());
        let c = s.last();
        if is_white(c) {
            prev
        } else if s.len() >= 2 && !is_white(s[s.len() - 2]) {
            prev.update(prev.len() - 1, prev.last().push(c))
        } else {
            prev.push(seq![c])
        }
    }
}

/// The pieces joined, with `sep` between each two of them.
pub open spec fn join(parts: Seq<Seq<char>>, sep: Seq<char>) -> Seq<char>
    decreases parts.len(),
{
    if parts.len() == 0 {
        Seq::<char>::empty()
    } else if parts.len() == 1 {
        parts[0]
    } else {
        join(parts.drop_last(), sep) + sep + parts.last()
    }
}

/// The words of `s` (see `words`).
pub fn split_whitespace(s: &str) -> (ws: Vec<String>)
    ensures
        views(ws@) == words(s@),
{
    let cs = str_chars(s);
    let n = cs.len();
    let mut ws: Vec<String> = Vec::new();
    let mut start: usize = 0;
    let mut in_word = false;
    let mut i: usize = 0;
    assert(cs@.take(0) =~= Seq::<char>::empty());
    assert(views(ws@) =~= Seq::<Seq<char>>::empty());
    while i < n
        invariant
            cs@ == s@,
            n == cs.len(),
            i <= n,
            start <= i,
            in_word ==> start < i && !is_white(cs@[i - 1]),
            !in_word ==> i == 0 || is_white(cs@[i - 1]),
            words(cs@.take(i as int)) == if in_word {
                views(ws@).push(cs@.subrange(start as int, i as int))
            } else {
                views(ws@)
            },
        decreases n - i,
    {
        let c = cs[i];
        let ghost cur = cs@.take(i + 1);
        assert(cur.drop_last() =~= cs@.take(i as int));
        assert(cur.last() == c);
        if is_whitespace(c) {
            if in_word {
                let w = string_from_range(&cs, start, i);
                ws.push(w);
                assert(views(ws@) =~= views(ws@.drop_last()).push(w@));
                in_word = false;
            }
        } else {
            if in_word {
                assert(cur[cur.len() - 2] == cs@[i - 1]);
                assert(cs@.subrange(start as int, i + 1) =~= cs@.subrange(start as int, i as int).push(c));
            } else {
                proof {
                    if i >= 1 {
                        assert(cur[cur.len() - 2] == cs@[i - 1]);
                    }
                }
                start = i;
                in_word = true;
                assert(cs@.subrange(start as int, i + 1) =~= seq![c]);
            }
        }
        i += 1;
    }
    assert(cs@.take(n as int) =~= cs@);
    if in_word {
        let w = string_from_range(&cs, start, n);
        ws.push(w);
        assert(views(ws@) =~= views(ws@.drop_last()).push(w@));
    }
    ws
}

/// The pieces joined, with `sep` between each two of them (see `join`).
pub fn join_strings(parts: &Vec<String>, sep: &str) -> (s: String)
    ensures
        s@ == join(views(parts@), sep@),
{
    let mut s = String::new();
    let mut i: usize = 0;
    while i < parts.len()
        invariant
            i <= parts.len(),
            s@ == join(views(parts@).take(i as int), sep@),
        decreases parts.len() - i,
    {
        let ghost vs = views(parts@).take(i + 1);
        assert(vs.drop_last() =~= views(parts@).take(i as int));
        if i > 0 {
            s.append(sep);
        } else {
            assert(join(views(parts@).take(0), sep@) =~= Seq::<char>::empty());
        }
        s.append(parts[i].as_str());
        i += 1;
    }
    assert(views(parts@).take(i as int) =~= views(parts@));
    s
}


/// Adding a piece after at least one other adds the separator and the piece.
proof fn lemma_join_push(ps: Seq<Seq<char>>, p: Seq<char>, sep: Seq<char>)
    requires
        ps.len() >= 1,
    ensures
        join(ps.push(p), sep) == join(ps, sep) + sep + p,
{
    assert(ps.push(p).drop_last() =~= ps);
}

/// Extending the last piece extends the joined text.
proof fn lemma_join_extend_last(ps: Seq<Seq<char>>, t: Seq<char>, sep: Seq<char>)
    requires
        ps.len() >= 1,
    ensures
        join(ps.update(ps.len() - 1, ps.last() + t), sep) == join(ps, sep) + t,
{
    let qs = ps.update(ps.len() - 1, ps.last() + t);
    if ps.len() >= 2 {
        assert(qs.drop_last() =~= ps.drop_last());
        assert(join(qs, sep) =~= join(ps, sep) + t);
    }
}

/// Law: the pieces that `split_on` cuts, joined again with the separator,
/// give back the text, and no piece holds the separator.
pub proof fn lemma_split_join(s: Seq<char>, sep: char)
    ensures
        join(split_on(s, sep), seq![sep]) == s,
        forall|i: int| 0 <= i < split_on(s, sep).len() ==> !(#[trigger] split_on(s, sep)[i]).contains(sep),
    decreases s.len(),
{
    if s.len() == 0 {
        assert(join(split_on(s, sep), seq![sep]) =~= s);
        assert forall|i: int| 0 <= i < split_on(s, sep).len() implies !(#[trigger] split_on(s, sep)[i]).contains(sep) by {
            assert(split_on(s, sep)[i] =~= Seq::<char>::empty());
        }
    } else {
        let prev = split_on(s.drop_last(), sep);
        lemma_split_join(s.drop_last(), sep);
        lemma_split_on_nonempty(s.drop_last(), sep);
        assert(s =~= s.drop_last().push(s.last()));
        if s.last() == sep {
            lemma_join_push(prev, Seq::<char>::empty(), seq![sep]);
            assert(join(split_on(s, sep), seq![sep]) =~= s);
            assert forall|i: int| 0 <= i < split_on(s, sep).len() implies !(#[trigger] split_on(s, sep)[i]).contains(sep) by {
                if i < prev.len() {
                    assert(split_on(s, sep)[i] == prev[i]);
                } else {
                    assert(split_on(s, sep)[i] =~= Seq::<char>::empty());
                }
            }
        } else {
            lemma_join_extend_last(prev, seq![s.last()], seq![sep]);
            assert(prev.last() + seq![s.last()] =~= prev.last().push(s.last()));
            assert(join(split_on(s, sep), seq![sep]) =~= s);
            assert forall|i: int| 0 <= i < split_on(s, sep).len() implies !(#[trigger] split_on(s, sep)[i]).contains(sep) by {
                if i < prev.len() - 1 {
                    assert(split_on(s, sep)[i] == prev[i]);
                } else {
                    let w = prev.last().push(s.last());
                    assert(split_on(s, sep)[i] == w);
                    assert(!prev[prev.len() - 1].contains(sep));
                    if w.contains(sep) {
                        let j = choose|j: int| 0 <= j < w.len() && w[j] == sep;
                        assert(prev.last()[j] == sep);
                    }
                }
            }
        }
    }
}

/// Law: no line of a text holds a line feed.
pub proof fn lemma_lines_have_no_newline(s: Seq<char>)
    ensures
        forall|i: int| 0 <= i < lines_of(s).len() ==> !(#[trigger] lines_of(s)[i]).contains('\n'),
{
    let parts = split_on(s, '\n');
    lemma_split_join(s, '\n');
    lemma_split_on_nonempty(s, '\n');
    assert forall|i: int| 0 <= i < lines_of(s).len() implies !(#[trigger] lines_of(s)[i]).contains('\n') by {
        if i < parts.len() - 1 {
            let p = parts[i];
            assert(!p.contains('\n'));
            assert(lines_of(s)[i] == strip_cr(p));
            if strip_cr(p).contains('\n') {
                let j = choose|j: int| 0 <= j < strip_cr(p).len() && strip_cr(p)[j] == '\n';
                assert(p[j] == '\n');
            }
        } else {
            assert(lines_of(s)[i] == parts.last());
        }
    }
}

/// Law: every word is non-empty and holds no white space.
pub proof fn lemma_words_are_words(s: Seq<char>)
    ensures
        forall|i: int| 0 <= i < words(s).len() ==> (#[trigger] words(s)[i]).len() > 0,
        forall|i: int, j: int| 0 <= i < words(s).len() && 0 <= j < words(s)[i].len()
            ==> !is_white(#[trigger] words(s)[i][j]),
        s.len() > 0 && !is_white(s.last()) ==> words(s).len() > 0 && words(s).last().last() == s.last(),
    decreases s.len(),
{
    if s.len() > 0 {
        let prev = words(s.drop_last());
        lemma_words_are_words(s.drop_last());
        let c = s.last();
        if !is_white(c) && s.len() >= 2 && !is_white(s[s.len() - 2]) {
            assert(s.drop_last().last() == s[s.len() - 2]);
            assert forall|i: int, j: int| 0 <= i < words(s).len() && 0 <= j < words(s)[i].len()
                implies !is_white(#[trigger] words(s)[i][j]) by {
                if i < prev.len() - 1 {
                    assert(words(s)[i] == prev[i]);
                } else if j < prev.last().len() {
                    assert(words(s)[i][j] == prev[prev.len() - 1][j]);
                }
            }
        } else if !is_white(c) {
            assert forall|i: int, j: int| 0 <= i < words(s).len() && 0 <= j < words(s)[i].len()
                implies !is_white(#[trigger] words(s)[i][j]) by {
                if i < prev.len() {
                    assert(words(s)[i] == prev[i]);
                }
            }
        }
    }
}

/// The words of two texts, the first empty or ending in white space, are the
/// words of the first followed by those of the second.
pub proof fn lemma_words_concat(s: Seq<char>, t: Seq<char>)
    requires
        s.len() == 0 || is_white(s.last()),
    ensures
        words(s + t) == words(s) + words(t),
    decreases t.len(),
{
    if t.len() == 0 {
        assert(s + t =~= s);
        assert(words(s) + words(t) =~= words(s));
    } else {
        lemma_words_concat(s, t.drop_last());
        let st = s + t;
        assert(st.drop_last() =~= s + t.drop_last());
        assert(st.last() == t.last());
        let c = t.last();
        if is_white(c) {
            assert(words(st) =~= words(s) + words(t));
        } else if t.len() >= 2 {
            assert(st[st.len() - 2] == t[t.len() - 2]);
            if !is_white(t[t.len() - 2]) {
                assert(t.drop_last().last() == t[t.len() - 2]);
                lemma_words_are_words(t.drop_last());
                assert(words(st) =~= words(s) + words(t));
            } else {
                assert(words(st) =~= words(s) + words(t));
            }
        } else {
            if st.len() >= 2 {
                assert(st[st.len() - 2] == s.last());
            }
            assert(t.drop_last() =~= Seq::<char>::empty());
            assert(words(st) =~= words(s) + words(t));
        }
    }
}

/// A text of no white space, not empty, is one word; a text of white space
/// only has none.
pub proof fn lemma_words_single(w: Seq<char>)
    ensures
        w.len() > 0 && (forall|i: int| 0 <= i < w.len() ==> !is_white(#[trigger] w[i]))
            ==> words(w) == seq![w],
        (forall|i: int| 0 <= i < w.len() ==> is_white(#[trigger] w[i]))
            ==> words(w) == Seq::<Seq<char>>::empty(),
    decreases w.len(),
{
    if w.len() > 0 {
        lemma_words_single(w.drop_last());
        if forall|i: int| 0 <= i < w.len() ==> !is_white(#[trigger] w[i]) {
            assert(!is_white(w.last()));
            if w.len() >= 2 {
                assert(forall|i: int| 0 <= i < w.drop_last().len() ==> !is_white(#[trigger] w.drop_last()[i])) by {
                    assert forall|i: int| 0 <= i < w.drop_last().len() implies !is_white(#[trigger] w.drop_last()[i]) by {
                        assert(w.drop_last()[i] == w[i]);
                    }
                }
                assert(!is_white(w[w.len() - 2]));
                assert(words(w.drop_last()) == seq![w.drop_last()]);
                assert(w.drop_last().push(w.last()) =~= w);
                assert(words(w) =~= seq![w]);
            } else {
                assert(w.drop_last() =~= Seq::<char>::empty());
                assert(words(w.drop_last()) =~= Seq::<Seq<char>>::empty());
                assert(seq![w.last()] =~= w);
                assert(words(w) =~= seq![w]);
            }
        }
        if forall|i: int| 0 <= i < w.len() ==> is_white(#[trigger] w[i]) {
            assert(is_white(w.last()));
            assert(forall|i: int| 0 <= i < w.drop_last().len() ==> is_white(#[trigger] w.drop_last()[i])) by {
                assert forall|i: int| 0 <= i < w.drop_last().len() implies is_white(#[trigger] w.drop_last()[i]) by {
                    assert(w.drop_last()[i] == w[i]);
                }
            }
        }
    }
}

/// Joining two non-empty lists of pieces is joining each and putting the
/// separator between the two.
pub proof fn lemma_join_concat(a: Seq<Seq<char>>, b: Seq<Seq<char>>, sep: Seq<char>)
    requires
        a.len() >= 1,
        b.len() >= 1,
    ensures
        join(a + b, sep) == join(a, sep) + sep + join(b, sep),
    decreases b.len(),
{
    if b.len() == 1 {
        assert(a + b =~= a.push(b[0]));
        lemma_join_push(a, b[0], sep);
    } else {
        lemma_join_concat(a, b.drop_last(), sep);
        assert((a + b).drop_last() =~= a + b.drop_last());
        assert((a + b).last() == b.last());
        assert(join(a + b, sep) =~= join(a, sep) + sep + join(b, sep));
    }
}

} // verus!
