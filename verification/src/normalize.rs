//! The text normalizer.
//!
//! Normalization removes non-whitespace control characters, collapses every
//! run of whitespace inside a line to a single space, trims each line, drops
//! empty lines, and joins the surviving lines with exactly one blank line
//! between them.  It is total, deterministic, and idempotent.

use vstd::prelude::*;
use crate::chars::is_ws_char;
use crate::chars::keeps_char;
use crate::chars::ws_char;
use crate::chars::ctrl_char;
use crate::chars::chars_of;
use crate::chars::string_of;
use crate::chars::lemma_chars_deep;
use crate::chars::lemma_deep_push;

verus! {

/// The input with every non-whitespace control character removed.
pub open spec fn scrub(s: Seq<char>) -> Seq<char>
    decreases s.len(),
{
    if s.len() == 0 {
        Seq::empty()
    } else if keeps_char(s.last()) {
        scrub(s.drop_last()).push(s.last())
    } else {
        scrub(s.drop_last())
    }
}

/// The input split at every newline; always at least one (possibly empty) line.
pub open spec fn lines_of(s: Seq<char>) -> Seq<Seq<char>>
    decreases s.len(),
{
    if s.len() == 0 {
        seq![Seq::empty()]
    } else if s.last() == '\n' {
        lines_of(s.drop_last()).push(Seq::empty())
    } else {
        let r = lines_of(s.drop_last());
        r.update(r.len() - 1, r.last().push(s.last()))
    }
}

/// The maximal runs of non-whitespace characters of a line, in order.
pub open spec fn words_of(l: Seq<char>) -> Seq<Seq<char>>
    decreases l.len(),
{
    if l.len() == 0 {
        Seq::empty()
    } else {
        let r = words_of(l.drop_last());
        let c = l.last();
        if is_ws_char(c) {
            r
        } else if l.len() == 1 || is_ws_char(l[l.len() - 2]) {
            r.push(seq![c])
        } else {
            r.update(r.len() - 1, r.last().push(c))
        }
    }
}

/// The parts joined with the separator between consecutive parts.
pub open spec fn join_with(sep: Seq<char>, parts: Seq<Seq<char>>) -> Seq<char>
    decreases parts.len(),
{
    if parts.len() == 0 {
        Seq::empty()
    } else if parts.len() == 1 {
        parts[0]
    } else {
        join_with(sep, parts.drop_last()) + sep + parts.last()
    }
}

/// A line with whitespace collapsed to single spaces and trimmed at both ends.
pub open spec fn norm_line(l: Seq<char>) -> Seq<char> {
    join_with(seq![' '], words_of(l))
}

/// Each line normalized, empty results dropped.
pub open spec fn norm_lines(ls: Seq<Seq<char>>) -> Seq<Seq<char>>
    decreases ls.len(),
{
    if ls.len() == 0 {
        Seq::empty()
    } else if norm_line(ls.last()).len() == 0 {
        norm_lines(ls.drop_last())
    } else {
        norm_lines(ls.drop_last()).push(norm_line(ls.last()))
    }
}

/// What normalization returns for any input text.
pub open spec fn normalize_spec(s: Seq<char>) -> Seq<char> {
    join_with(seq!['\n', '\n'], norm_lines(lines_of(scrub(s))))
}

/// A text on which normalization is a no-op.
pub open spec fn is_normalized(s: Seq<char>) -> bool {
    normalize_spec(s) == s
}

// ---------------------------------------------------------------------------
// Executable normalization
// ---------------------------------------------------------------------------



proof fn lemma_deep_index(a: Vec<Vec<char>>, i: int)
    requires
        0 <= i < a@.len(),
    ensures
        a.deep_view()[i] == a@[i]@,
{
    lemma_chars_deep(a@[i]);
}

fn scrub_chars(v: &Vec<char>) -> (out: Vec<char>)
    ensures
        out@ == scrub(v@),
{
    let mut out: Vec<char> = Vec::new();
    let mut i: usize = 0;
    while i < v.len()
        invariant
            i <= v@.len(),
            out@ == scrub(v@.take(i as int)),
        decreases v@.len() - i,
    {
        let c = v[i];
        proof {
            assert(v@.take(i + 1).drop_last() =~= v@.take(i as int));
            assert(v@.take(i + 1).last() == v@[i as int]);
        }
        if ws_char(c) || !ctrl_char(c) {
            out.push(c);
        }
        i = i + 1;
    }
    proof {
        assert(v@.take(v@.len() as int) =~= v@);
    }
    out
}

pub(crate) fn split_lines(v: &Vec<char>) -> (ls: Vec<Vec<char>>)
    ensures
        ls.deep_view() == lines_of(v@),
{
    let mut acc: Vec<Vec<char>> = Vec::new();
    let mut cur: Vec<char> = Vec::new();
    let mut i: usize = 0;
    while i < v.len()
        invariant
            i <= v@.len(),
            lines_of(v@.take(i as int)) == acc.deep_view().push(cur@),
        decreases v@.len() - i,
    {
        let c = v[i];
        proof {
            assert(v@.take(i + 1).drop_last() =~= v@.take(i as int));
            assert(v@.take(i + 1).last() == v@[i as int]);
        }
        if c == '\n' {
            let ghost old_acc = acc.deep_view();
            let ghost old_cur = cur@;
            let ghost acc_pre = acc;
            acc.push(cur);
            cur = Vec::new();
            proof {
                lemma_deep_push(acc_pre, acc, acc@.last());
                assert(acc.deep_view() =~= old_acc.push(old_cur));
                assert(lines_of(v@.take(i + 1)) =~= acc.deep_view().push(cur@));
            }
        } else {
            let ghost old_acc = acc.deep_view();
            let ghost old_cur = cur@;
            cur.push(c);
            proof {
                let prev = old_acc.push(old_cur);
                assert(lines_of(v@.take(i + 1)) =~= prev.update(
                    prev.len() - 1,
                    prev.last().push(c),
                ));
                assert(prev.update(prev.len() - 1, prev.last().push(c)) =~= old_acc.push(
                    old_cur.push(c),
                ));
            }
        }
        i = i + 1;
    }
    let ghost old_acc = acc.deep_view();
    let ghost old_cur = cur@;
    let ghost acc_pre = acc;
    acc.push(cur);
    proof {
        lemma_deep_push(acc_pre, acc, acc@.last());
        assert(v@.take(v@.len() as int) =~= v@);
        assert(acc.deep_view() =~= old_acc.push(old_cur));
    }
    acc
}

proof fn lemma_join_snoc(sep: Seq<char>, parts: Seq<Seq<char>>, w: Seq<char>)
    requires
        parts.len() >= 1,
    ensures
        join_with(sep, parts.push(w)) == join_with(sep, parts) + sep + w,
{
    assert(parts.push(w).drop_last() =~= parts);
    assert(parts.push(w).last() == w);
}

/// Every word is nonempty, free of whitespace, and made of characters of `l`.
proof fn lemma_words_shape(l: Seq<char>)
    ensures
        forall|i: int|
            0 <= i < words_of(l).len() ==> #[trigger] words_of(l)[i].len() >= 1,
        forall|i: int, j: int|
            0 <= i < words_of(l).len() && 0 <= j < words_of(l)[i].len() ==> !is_ws_char(
                #[trigger] words_of(l)[i][j],
            ) && l.contains(words_of(l)[i][j]),
        l.len() >= 1 && !is_ws_char(l.last()) ==> words_of(l).len() >= 1,
    decreases l.len(),
{
    if l.len() > 0 {
        lemma_words_shape(l.drop_last());
        let r = words_of(l.drop_last());
        let c = l.last();
        assert(forall|j: int| 0 <= j < l.drop_last().len() ==> l.contains(#[trigger] l.drop_last()[j]))
            by {
            assert(forall|j: int|
                0 <= j < l.drop_last().len() ==> #[trigger] l.drop_last()[j] == l[j]);
        }
        assert(l.contains(c)) by {
            assert(l[l.len() - 1] == c);
        }
        if is_ws_char(c) {
        } else if l.len() == 1 || is_ws_char(l[l.len() - 2]) {
        } else {
            assert(r.len() >= 1) by {
                assert(l.drop_last().len() >= 1);
                assert(l.drop_last().last() == l[l.len() - 2]);
            }
        }
    }
}

fn norm_line_chars(l: &Vec<char>) -> (out: Vec<char>)
    ensures
        out@ == norm_line(l@),
{
    let mut out: Vec<char> = Vec::new();
    let mut i: usize = 0;
    while i < l.len()
        invariant
            i <= l@.len(),
            out@ == norm_line(l@.take(i as int)),
            out@.len() == 0 <==> words_of(l@.take(i as int)).len() == 0,
        decreases l@.len() - i,
    {
        let c = l[i];
        proof {
            assert(l@.take(i + 1).drop_last() =~= l@.take(i as int));
            assert(l@.take(i + 1).last() == l@[i as int]);
            lemma_words_shape(l@.take(i as int));
            lemma_words_shape(l@.take(i + 1));
        }
        let ghost pre = l@.take(i as int);
        let ghost post = l@.take(i + 1);
        if ws_char(c) {
            proof {
                assert(words_of(post) =~= words_of(pre));
            }
        } else if i == 0 || ws_char(l[i - 1]) {
            // a new word begins
            proof {
                assert(words_of(post) == words_of(pre).push(seq![c]));
            }
            if out.len() > 0 {
                proof {
                    lemma_join_snoc(seq![' '], words_of(pre), seq![c]);
                }
                out.push(' ');
                out.push(c);
                proof {
                    assert(out@ =~= norm_line(post));
                }
            } else {
                proof {
                    assert(words_of(pre).len() == 0);
                    assert(words_of(post).len() == 1);
                    assert(norm_line(post) == seq![c]);
                }
                out.push(c);
                proof {
                    assert(out@ =~= seq![c]);
                }
            }
        } else {
            // the last word continues
            proof {
                let w = words_of(pre);
                assert(pre.len() >= 1 && !is_ws_char(pre.last())) by {
                    assert(pre.last() == l@[i - 1]);
                }
                assert(w.len() >= 1);
                assert(words_of(post) == w.update(w.len() - 1, w.last().push(c)));
                lemma_join_last_extend(seq![' '], w, c);
            }
            out.push(c);
        }
        i = i + 1;
    }
    proof {
        assert(l@.take(l@.len() as int) =~= l@);
    }
    out
}

/// Extending the last part by one character extends the join by it.
proof fn lemma_join_last_extend(sep: Seq<char>, parts: Seq<Seq<char>>, c: char)
    requires
        parts.len() >= 1,
    ensures
        join_with(sep, parts.update(parts.len() - 1, parts.last().push(c))) == join_with(
            sep,
            parts,
        ).push(c),
    decreases parts.len(),
{
    let upd = parts.update(parts.len() - 1, parts.last().push(c));
    if parts.len() == 1 {
        assert(join_with(sep, upd) == upd[0]);
        assert(upd[0] == parts[0].push(c));
    } else {
        assert(upd.drop_last() =~= parts.drop_last());
        assert(upd.last() == parts.last().push(c));
        assert(join_with(sep, upd) == join_with(sep, parts.drop_last()) + sep
            + parts.last().push(c));
        assert(join_with(sep, parts.drop_last()) + sep + parts.last().push(c) =~= (join_with(
            sep,
            parts.drop_last(),
        ) + sep + parts.last()).push(c));
    }
}

/// Normalize a character sequence.
pub fn normalize_chars(v: &Vec<char>) -> (out: Vec<char>)
    ensures
        out@ == normalize_spec(v@),
{
    let sv = scrub_chars(v);
    let lines = split_lines(&sv);
    let mut parts: Vec<Vec<char>> = Vec::new();
    let mut j: usize = 0;
    while j < lines.len()
        invariant
            j <= lines@.len(),
            lines.deep_view() == lines_of(scrub(v@)),
            parts.deep_view() == norm_lines(lines.deep_view().take(j as int)),
        decreases lines@.len() - j,
    {
        let nl = norm_line_chars(&lines[j]);
        proof {
            assert(lines.deep_view().take(j + 1).drop_last() =~= lines.deep_view().take(j as int));
            assert(lines.deep_view().take(j + 1).last() == lines.deep_view()[j as int]);
            lemma_deep_index(lines, j as int);
        }
        if nl.len() > 0 {
            let ghost old_parts = parts.deep_view();
            let ghost parts_pre = parts;
            let ghost nl_view = nl@;
            parts.push(nl);
            proof {
                lemma_deep_push(parts_pre, parts, parts@.last());
                assert(parts.deep_view() =~= old_parts.push(nl_view));
            }
        }
        j = j + 1;
    }
    proof {
        assert(lines.deep_view().take(lines@.len() as int) =~= lines.deep_view());
    }
    // join the parts with one blank line between them
    let mut out: Vec<char> = Vec::new();
    let mut k: usize = 0;
    while k < parts.len()
        invariant
            k <= parts@.len(),
            parts.deep_view() == norm_lines(lines_of(scrub(v@))),
            out@ == join_with(seq!['\n', '\n'], parts.deep_view().take(k as int)),
        decreases parts@.len() - k,
    {
        proof {
            assert(parts.deep_view().take(k + 1).drop_last() =~= parts.deep_view().take(k as int));
            assert(parts.deep_view().take(k + 1).last() == parts.deep_view()[k as int]);
            lemma_deep_index(parts, k as int);
        }
        if k > 0 {
            proof {
                lemma_join_snoc(
                    seq!['\n', '\n'],
                    parts.deep_view().take(k as int),
                    parts.deep_view()[k as int],
                );
            }
            out.push('\n');
            out.push('\n');
        } else {
            proof {
                assert(parts.deep_view().take(1).len() == 1);
                assert(join_with(seq!['\n', '\n'], parts.deep_view().take(1))
                    == parts.deep_view()[0]);
            }
        }
        let ghost out_before = out@;
        let part = &parts[k];
        let mut t: usize = 0;
        while t < part.len()
            invariant
                t <= part@.len(),
                out@ == out_before + part@.take(t as int),
            decreases part@.len() - t,
        {
            out.push(part[t]);
            t = t + 1;
            proof {
                assert(out@ =~= out_before + part@.take(t as int));
            }
        }
        proof {
            assert(part@.take(part@.len() as int) =~= part@);
            assert(out@ =~= join_with(seq!['\n', '\n'], parts.deep_view().take(k + 1)));
        }
        k = k + 1;
    }
    proof {
        assert(parts.deep_view().take(parts@.len() as int) =~= parts.deep_view());
    }
    out
}

// ---------------------------------------------------------------------------
// Idempotence
// ---------------------------------------------------------------------------

proof fn lemma_scrub_id(s: Seq<char>)
    requires
        forall|j: int| 0 <= j < s.len() ==> keeps_char(#[trigger] s[j]),
    ensures
        scrub(s) == s,
    decreases s.len(),
{
    if s.len() > 0 {
        lemma_scrub_id(s.drop_last());
        assert(scrub(s) =~= s);
    }
}

proof fn lemma_scrub_keeps(s: Seq<char>)
    ensures
        forall|j: int| 0 <= j < scrub(s).len() ==> keeps_char(#[trigger] scrub(s)[j]),
    decreases s.len(),
{
    if s.len() > 0 {
        lemma_scrub_keeps(s.drop_last());
        let r = scrub(s.drop_last());
        if keeps_char(s.last()) {
            assert forall|j: int| 0 <= j < scrub(s).len() implies keeps_char(scrub(s)[j]) by {
                if j < r.len() {
                    assert(scrub(s)[j] == r[j]);
                } else {
                    assert(scrub(s)[j] == s.last());
                }
            }
        }
    }
}

/// Every character of a join comes from the separator or from some part.
proof fn lemma_join_chars(sep: Seq<char>, parts: Seq<Seq<char>>)
    ensures
        forall|j: int|
            0 <= j < join_with(sep, parts).len() ==> sep.contains(
                #[trigger] join_with(sep, parts)[j],
            ) || exists|i: int| 0 <= i < parts.len() && #[trigger] parts[i].contains(
                join_with(sep, parts)[j],
            ),
    decreases parts.len(),
{
    if parts.len() <= 1 {
        if parts.len() == 1 {
            assert forall|j: int| 0 <= j < join_with(sep, parts).len() implies sep.contains(
                join_with(sep, parts)[j],
            ) || exists|i: int| 0 <= i < parts.len() && #[trigger] parts[i].contains(
                join_with(sep, parts)[j],
            ) by {
                assert(parts[0].contains(join_with(sep, parts)[j]));
            }
        }
    } else {
        lemma_join_chars(sep, parts.drop_last());
        let pre = join_with(sep, parts.drop_last());
        let all = join_with(sep, parts);
        assert forall|j: int| 0 <= j < all.len() implies sep.contains(all[j]) || exists|i: int|
            0 <= i < parts.len() && #[trigger] parts[i].contains(all[j]) by {
            if j < pre.len() {
                assert(all[j] == pre[j]);
                if !sep.contains(pre[j]) {
                    let i = choose|i: int|
                        0 <= i < parts.drop_last().len() && #[trigger] parts.drop_last()[i].contains(
                            pre[j],
                        );
                    assert(parts[i].contains(all[j]));
                }
            } else if j < pre.len() + sep.len() {
                assert(sep.contains(all[j])) by {
                    assert(all[j] == sep[j - pre.len()]);
                }
            } else {
                assert(parts.last().contains(all[j])) by {
                    assert(all[j] == parts.last()[j - pre.len() - sep.len()]);
                }
                assert(parts[parts.len() - 1].contains(all[j]));
            }
        }
    }
}

/// A nonempty whitespace-free sequence is its own single word.
proof fn lemma_words_of_word(w: Seq<char>)
    requires
        w.len() >= 1,
        forall|j: int| 0 <= j < w.len() ==> !is_ws_char(#[trigger] w[j]),
    ensures
        words_of(w) == seq![w],
    decreases w.len(),
{
    if w.len() == 1 {
        assert(!is_ws_char(w[0]));
        assert(w.drop_last().len() == 0);
        assert(words_of(w.drop_last()) =~= Seq::<Seq<char>>::empty());
        assert(words_of(w) == words_of(w.drop_last()).push(seq![w.last()]));
        assert(seq![w[0]] =~= w);
        assert(words_of(w) =~~= seq![w]);
    } else {
        lemma_words_of_word(w.drop_last());
        assert(!is_ws_char(w[w.len() - 2]));
        let r = words_of(w.drop_last());
        assert(r == seq![w.drop_last()]);
        assert(r.len() == 1);
        assert(r.last() == w.drop_last());
        assert(r.last().push(w.last()) =~= w);
        assert(words_of(w) == r.update(0, w));
        assert(r.update(0, w) =~= seq![w]);
    }
}

/// Appending a separator and one more word appends that word to the words.
proof fn lemma_words_append_word(x: Seq<char>, w: Seq<char>)
    requires
        w.len() >= 1,
        forall|j: int| 0 <= j < w.len() ==> !is_ws_char(#[trigger] w[j]),
    ensures
        words_of(x + seq![' '] + w) == words_of(x).push(w),
    decreases w.len(),
{
    let full = x + seq![' '] + w;
    if w.len() == 1 {
        assert(full.drop_last() =~= x + seq![' ']);
        assert((x + seq![' ']).drop_last() =~= x);
        assert((x + seq![' ']).last() == ' ');
        assert(words_of(x + seq![' ']) == words_of(x));
        assert(full.last() == w[0]);
        assert(!is_ws_char(full.last()));
        assert(full[full.len() - 2] == ' ');
        assert(words_of(full) == words_of(x).push(seq![w[0]]));
        assert(seq![w[0]] =~= w);
    } else {
        lemma_words_append_word(x, w.drop_last());
        assert(full.drop_last() =~= x + seq![' '] + w.drop_last());
        assert(full.last() == w.last());
        assert(!is_ws_char(full.last()));
        assert(full[full.len() - 2] == w[w.len() - 2]);
        assert(!is_ws_char(full[full.len() - 2]));
        let r = words_of(full.drop_last());
        assert(r == words_of(x).push(w.drop_last()));
        assert(r.len() >= 1);
        assert(words_of(full) == r.update(r.len() - 1, r.last().push(w.last())));
        assert(r.last() == w.drop_last());
        assert(w.drop_last().push(w.last()) =~= w);
        assert(words_of(full) =~= words_of(x).push(w));
    }
}

/// Splitting a space-joined word list into words gives the list back.
proof fn lemma_words_join(ws: Seq<Seq<char>>)
    requires
        forall|i: int| 0 <= i < ws.len() ==> #[trigger] ws[i].len() >= 1,
        forall|i: int, j: int|
            0 <= i < ws.len() && 0 <= j < ws[i].len() ==> !is_ws_char(#[trigger] ws[i][j]),
    ensures
        words_of(join_with(seq![' '], ws)) == ws,
    decreases ws.len(),
{
    if ws.len() == 0 {
        assert(words_of(join_with(seq![' '], ws)) =~= ws);
    } else if ws.len() == 1 {
        assert(ws[0].len() >= 1);
        lemma_words_of_word(ws[0]);
        assert(words_of(join_with(seq![' '], ws)) =~= ws);
    } else {
        lemma_words_join(ws.drop_last());
        assert(join_with(seq![' '], ws) == join_with(seq![' '], ws.drop_last()) + seq![' ']
            + ws.last());
        assert(ws[ws.len() - 1].len() >= 1);
        assert(forall|j: int|
            0 <= j < ws.last().len() ==> !is_ws_char(#[trigger] ws.last()[j])) by {
            assert(forall|j: int|
                0 <= j < ws[ws.len() - 1].len() ==> !is_ws_char(#[trigger] ws[ws.len() - 1][j]));
        }
        lemma_words_append_word(join_with(seq![' '], ws.drop_last()), ws.last());
        assert(words_of(join_with(seq![' '], ws)) =~= ws);
    }
}

/// Line normalization is idempotent.
proof fn lemma_norm_line_idem(l: Seq<char>)
    ensures
        norm_line(norm_line(l)) == norm_line(l),
{
    lemma_words_shape(l);
    lemma_words_join(words_of(l));
}

/// The lines of a text joined by blank lines: each part, separated by one
/// empty line.
spec fn nl_split(parts: Seq<Seq<char>>) -> Seq<Seq<char>>
    decreases parts.len(),
{
    if parts.len() == 0 {
        seq![Seq::<char>::empty()]
    } else if parts.len() == 1 {
        seq![parts[0]]
    } else {
        nl_split(parts.drop_last()) + seq![Seq::<char>::empty(), parts.last()]
    }
}

proof fn lemma_lines_len(s: Seq<char>)
    ensures
        lines_of(s).len() >= 1,
    decreases s.len(),
{
    if s.len() > 0 {
        lemma_lines_len(s.drop_last());
    }
}

/// Appending newline-free text extends the last line.
proof fn lemma_lines_append(x: Seq<char>, p: Seq<char>)
    requires
        forall|j: int| 0 <= j < p.len() ==> #[trigger] p[j] != '\n',
    ensures
        lines_of(x + p) == lines_of(x).update(
            lines_of(x).len() - 1,
            lines_of(x).last() + p,
        ),
    decreases p.len(),
{
    lemma_lines_len(x);
    if p.len() == 0 {
        assert(x + p =~= x);
        assert(lines_of(x).last() + p =~= lines_of(x).last());
        assert(lines_of(x).update(lines_of(x).len() - 1, lines_of(x).last() + p) =~= lines_of(x));
    } else {
        lemma_lines_append(x, p.drop_last());
        let full = x + p;
        assert(full.drop_last() =~= x + p.drop_last());
        assert(full.last() == p.last());
        assert(p.last() != '\n') by {
            assert(p[p.len() - 1] != '\n');
        }
        let r = lines_of(x + p.drop_last());
        assert(r == lines_of(x).update(lines_of(x).len() - 1, lines_of(x).last() + p.drop_last()));
        assert(r.len() == lines_of(x).len());
        assert(lines_of(full) == r.update(r.len() - 1, r.last().push(p.last())));
        assert(r.last() == lines_of(x).last() + p.drop_last());
        assert((lines_of(x).last() + p.drop_last()).push(p.last()) =~= lines_of(x).last() + p);
        assert(lines_of(full) =~= lines_of(x).update(
            lines_of(x).len() - 1,
            lines_of(x).last() + p,
        ));
    }
}

/// Splitting a blank-line join at newlines gives each part back with one
/// empty line between consecutive parts.
proof fn lemma_lines_join(parts: Seq<Seq<char>>)
    requires
        forall|i: int, j: int|
            0 <= i < parts.len() && 0 <= j < parts[i].len() ==> #[trigger] parts[i][j] != '\n',
    ensures
        lines_of(join_with(seq!['\n', '\n'], parts)) == nl_split(parts),
    decreases parts.len(),
{
    let sep = seq!['\n', '\n'];
    if parts.len() == 0 {
        assert(lines_of(join_with(sep, parts)) =~= nl_split(parts));
    } else if parts.len() == 1 {
        assert(join_with(sep, parts) == parts[0]);
        assert(Seq::<char>::empty() + parts[0] =~= parts[0]);
        lemma_lines_append(Seq::<char>::empty(), parts[0]);
        assert(lines_of(Seq::<char>::empty()) =~= seq![Seq::<char>::empty()]);
        assert(lines_of(parts[0]) =~= seq![parts[0]]);
    } else {
        lemma_lines_join(parts.drop_last());
        let pre = join_with(sep, parts.drop_last());
        assert(join_with(sep, parts) == pre + sep + parts.last());
        let pre1 = pre.push('\n');
        let pre2 = pre1.push('\n');
        assert(pre1.drop_last() =~= pre);
        assert(lines_of(pre1) == lines_of(pre).push(Seq::<char>::empty()));
        assert(pre2.drop_last() =~= pre1);
        assert(lines_of(pre2) == lines_of(pre1).push(Seq::<char>::empty()));
        assert(pre + sep + parts.last() =~= pre2 + parts.last());
        assert(forall|j: int|
            0 <= j < parts.last().len() ==> #[trigger] parts.last()[j] != '\n') by {
            assert(forall|j: int|
                0 <= j < parts[parts.len() - 1].len() ==> #[trigger] parts[parts.len() - 1][j]
                    != '\n');
        }
        lemma_lines_append(pre2, parts.last());
        assert(lines_of(pre2).last() == Seq::<char>::empty());
        assert(Seq::<char>::empty() + parts.last() =~= parts.last());
        assert(lines_of(pre2 + parts.last()) =~= lines_of(pre).push(Seq::<char>::empty()).push(
            parts.last(),
        ));
        assert(nl_split(parts) =~= nl_split(parts.drop_last()) + seq![
            Seq::<char>::empty(),
            parts.last(),
        ]);
        assert(lines_of(pre).push(Seq::<char>::empty()).push(parts.last()) =~= lines_of(pre)
            + seq![Seq::<char>::empty(), parts.last()]);
    }
}

proof fn lemma_norm_lines_append(a: Seq<Seq<char>>, b: Seq<Seq<char>>)
    ensures
        norm_lines(a + b) == norm_lines(a) + norm_lines(b),
    decreases b.len(),
{
    if b.len() == 0 {
        assert(a + b =~= a);
        assert(norm_lines(a) + norm_lines(b) =~= norm_lines(a));
    } else {
        lemma_norm_lines_append(a, b.drop_last());
        assert((a + b).drop_last() =~= a + b.drop_last());
        assert((a + b).last() == b.last());
        if norm_line(b.last()).len() == 0 {
            assert(norm_lines(b) == norm_lines(b.drop_last()));
            assert(norm_lines(a + b) =~= norm_lines(a) + norm_lines(b));
        } else {
            assert(norm_lines(b) == norm_lines(b.drop_last()).push(norm_line(b.last())));
            assert(norm_lines(a + b) =~= norm_lines(a) + norm_lines(b));
        }
    }
}

/// Shape of the surviving normalized lines: each is nonempty, fixed under
/// line normalization, and made of newline-free kept characters.
proof fn lemma_norm_parts_shape(ls: Seq<Seq<char>>)
    requires
        forall|i: int, j: int|
            0 <= i < ls.len() && 0 <= j < ls[i].len() ==> keeps_char(#[trigger] ls[i][j]),
    ensures
        forall|i: int|
            0 <= i < norm_lines(ls).len() ==> #[trigger] norm_lines(ls)[i].len() >= 1,
        forall|i: int|
            0 <= i < norm_lines(ls).len() ==> norm_line(#[trigger] norm_lines(ls)[i])
                == norm_lines(ls)[i],
        forall|i: int, j: int|
            0 <= i < norm_lines(ls).len() && 0 <= j < norm_lines(ls)[i].len() ==> keeps_char(
                #[trigger] norm_lines(ls)[i][j],
            ) && norm_lines(ls)[i][j] != '\n',
    decreases ls.len(),
{
    if ls.len() > 0 {
        lemma_norm_parts_shape(ls.drop_last());
        assert(forall|i: int, j: int|
            0 <= i < ls.drop_last().len() && 0 <= j < ls.drop_last()[i].len() ==> keeps_char(
                #[trigger] ls.drop_last()[i][j],
            )) by {
            assert(forall|i: int|
                0 <= i < ls.drop_last().len() ==> #[trigger] ls.drop_last()[i] == ls[i]);
        }
        let rec = norm_lines(ls.drop_last());
        let l = ls.last();
        let n = norm_line(l);
        if n.len() == 0 {
            assert(norm_lines(ls) == rec);
        } else {
            lemma_norm_line_idem(l);
            lemma_words_shape(l);
            lemma_join_chars(seq![' '], words_of(l));
            assert(forall|j: int| 0 <= j < l.len() ==> keeps_char(#[trigger] l[j])) by {
                assert(forall|j: int|
                    0 <= j < ls[ls.len() - 1].len() ==> keeps_char(
                        #[trigger] ls[ls.len() - 1][j],
                    ));
            }
            assert forall|j: int| 0 <= j < n.len() implies keeps_char(n[j]) && n[j] != '\n' by {
                if seq![' '].contains(n[j]) {
                    assert(n[j] == ' ');
                } else {
                    let i = choose|i: int|
                        0 <= i < words_of(l).len() && #[trigger] words_of(l)[i].contains(n[j]);
                    let k = choose|k: int| 0 <= k < words_of(l)[i].len() && words_of(l)[i][k] == n[j];
                    assert(!is_ws_char(n[j]));
                    assert(l.contains(n[j]));
                    let m = choose|m: int| 0 <= m < l.len() && l[m] == n[j];
                    assert(keeps_char(n[j]));
                }
            }
            assert(norm_lines(ls) == rec.push(n));
            assert forall|i: int| 0 <= i < norm_lines(ls).len() implies #[trigger] norm_lines(
                ls,
            )[i].len() >= 1 by {
                if i < rec.len() {
                    assert(norm_lines(ls)[i] == rec[i]);
                } else {
                    assert(norm_lines(ls)[i] == n);
                }
            }
            assert forall|i: int| 0 <= i < norm_lines(ls).len() implies norm_line(
                #[trigger] norm_lines(ls)[i],
            ) == norm_lines(ls)[i] by {
                if i < rec.len() {
                    assert(norm_lines(ls)[i] == rec[i]);
                } else {
                    assert(norm_lines(ls)[i] == n);
                }
            }
            assert forall|i: int, j: int|
                0 <= i < norm_lines(ls).len() && 0 <= j < norm_lines(ls)[i].len() implies
                keeps_char(#[trigger] norm_lines(ls)[i][j]) && norm_lines(ls)[i][j] != '\n' by {
                if i < rec.len() {
                    assert(norm_lines(ls)[i] == rec[i]);
                    assert(keeps_char(rec[i][j]) && rec[i][j] != '\n');
                } else {
                    assert(norm_lines(ls)[i] == n);
                }
            }
        }
    }
}

/// Re-normalizing the surviving lines of a blank-line split gives them back.
proof fn lemma_norm_lines_of_nl_split(parts: Seq<Seq<char>>)
    requires
        forall|i: int| 0 <= i < parts.len() ==> #[trigger] parts[i].len() >= 1,
        forall|i: int|
            0 <= i < parts.len() ==> norm_line(#[trigger] parts[i]) == parts[i],
    ensures
        norm_lines(nl_split(parts)) == parts,
    decreases parts.len(),
{
    let empty_line = Seq::<char>::empty();
    assert(norm_line(empty_line).len() == 0) by {
        assert(words_of(empty_line) =~= Seq::<Seq<char>>::empty());
    }
    assert(norm_lines(Seq::<Seq<char>>::empty()) == Seq::<Seq<char>>::empty());
    assert(seq![empty_line].drop_last() =~= Seq::<Seq<char>>::empty());
    assert(norm_lines(seq![empty_line]) =~= Seq::<Seq<char>>::empty()) by {
        assert(seq![empty_line].last() == empty_line);
        assert(norm_lines(seq![empty_line].drop_last()) == Seq::<Seq<char>>::empty());
    }
    if parts.len() == 0 {
        assert(nl_split(parts) == seq![empty_line]);
        assert(norm_lines(nl_split(parts)) =~~= parts);
    } else if parts.len() == 1 {
        assert(norm_line(parts[0]) == parts[0]);
        assert(parts[0].len() >= 1);
        let single = seq![parts[0]];
        assert(nl_split(parts) == single);
        assert(single.last() == parts[0]);
        assert(single.drop_last() =~= Seq::<Seq<char>>::empty());
        assert(norm_lines(single) == norm_lines(single.drop_last()).push(parts[0]));
        assert(norm_lines(nl_split(parts)) =~~= parts);
    } else {
        assert(forall|i: int|
            0 <= i < parts.drop_last().len() ==> #[trigger] parts.drop_last()[i] == parts[i]);
        lemma_norm_lines_of_nl_split(parts.drop_last());
        let tail = seq![empty_line, parts.last()];
        lemma_norm_lines_append(nl_split(parts.drop_last()), tail);
        assert(norm_line(parts[parts.len() - 1]) == parts[parts.len() - 1]);
        assert(parts[parts.len() - 1].len() >= 1);
        assert(norm_lines(tail) =~~= seq![parts.last()]) by {
            assert(tail.drop_last() =~= seq![empty_line]);
            assert(tail.last() == parts.last());
            assert(norm_line(parts.last()).len() >= 1);
            assert(norm_lines(tail) == norm_lines(tail.drop_last()).push(norm_line(parts.last())));
        }
        assert(norm_lines(nl_split(parts)) =~~= parts.drop_last() + seq![parts.last()]);
        assert(parts.drop_last() + seq![parts.last()] =~~= parts);
    }
}

/// Every character of each line comes from the split text.
proof fn lemma_lines_chars(s: Seq<char>)
    ensures
        forall|i: int, j: int|
            0 <= i < lines_of(s).len() && 0 <= j < lines_of(s)[i].len() ==> s.contains(
                #[trigger] lines_of(s)[i][j],
            ),
    decreases s.len(),
{
    if s.len() > 0 {
        lemma_lines_chars(s.drop_last());
        assert(forall|i: int, j: int|
            0 <= i < lines_of(s.drop_last()).len() && 0 <= j < lines_of(s.drop_last())[i].len()
                ==> s.contains(#[trigger] lines_of(s.drop_last())[i][j])) by {
            assert forall|i: int, j: int|
                0 <= i < lines_of(s.drop_last()).len() && 0 <= j < lines_of(
                    s.drop_last(),
                )[i].len() implies s.contains(#[trigger] lines_of(s.drop_last())[i][j]) by {
                assert(s.drop_last().contains(lines_of(s.drop_last())[i][j]));
                let m = choose|m: int|
                    0 <= m < s.drop_last().len() && s.drop_last()[m] == lines_of(
                        s.drop_last(),
                    )[i][j];
                assert(s[m] == lines_of(s.drop_last())[i][j]);
            }
        }
        assert(s.contains(s.last())) by {
            assert(s[s.len() - 1] == s.last());
        }
        lemma_lines_len(s.drop_last());
    }
}

/// Normalization is idempotent: normalizing a normalized text changes
/// nothing.
pub proof fn lemma_normalize_idempotent(s: Seq<char>)
    ensures
        normalize_spec(normalize_spec(s)) == normalize_spec(s),
{
    let sep = seq!['\n', '\n'];
    let ls = lines_of(scrub(s));
    lemma_scrub_keeps(s);
    lemma_lines_chars(scrub(s));
    assert forall|i: int, j: int|
        0 <= i < ls.len() && 0 <= j < ls[i].len() implies keeps_char(#[trigger] ls[i][j]) by {
        assert(scrub(s).contains(ls[i][j]));
        let m = choose|m: int| 0 <= m < scrub(s).len() && scrub(s)[m] == ls[i][j];
    }
    lemma_norm_parts_shape(ls);
    let parts = norm_lines(ls);
    let n = join_with(sep, parts);
    lemma_join_chars(sep, parts);
    assert forall|j: int| 0 <= j < n.len() implies keeps_char(#[trigger] n[j]) by {
        if sep.contains(n[j]) {
            assert(n[j] == '\n');
        } else {
            let i = choose|i: int| 0 <= i < parts.len() && #[trigger] parts[i].contains(n[j]);
            let k = choose|k: int| 0 <= k < parts[i].len() && parts[i][k] == n[j];
        }
    }
    lemma_scrub_id(n);
    lemma_lines_join(parts);
    lemma_norm_lines_of_nl_split(parts);
}

/// Normalize a text: collapse whitespace runs, drop non-whitespace control
/// characters, trim lines, drop empty lines, and separate the surviving
/// lines by one blank line.
pub fn normalize_text(text: &str) -> (r: String)
    ensures
        r@ == normalize_spec(text@),
{
    let v = chars_of(text);
    let n = normalize_chars(&v);
    string_of(&n)
}

} // verus!
