//! Sentence splitting.
//!
//! The text is scanned line by line; inside a line, a sentence ends at `.`,
//! `!` or `?` when the next character is whitespace or uppercase, or at the
//! end of the line.  A candidate sentence is kept only when its trimmed
//! length exceeds five characters.  Unfinished content flows into the next
//! line with a single joining space.

use vstd::prelude::*;
use crate::chars::is_ws_char;
use crate::chars::is_upper_char;
use crate::chars::seq_trim;
use crate::chars::ws_char;
use crate::chars::upper_char;
use crate::chars::trim_chars;
use crate::chars::chars_of;
use crate::chars::lemma_chars_deep;
use crate::chars::lemma_deep_push;
use crate::chars::lemma_deep_push_str;
use crate::normalize::lines_of;
use crate::normalize::split_lines;

verus! {

/// A sentence-ending punctuation mark.
pub open spec fn is_stop_char(c: char) -> bool {
    c == '.' || c == '!' || c == '?'
}

/// One step state of the splitter: the sentences emitted so far and the
/// accumulator of the unfinished sentence.
pub open spec fn sent_chars(
    ss: Seq<Seq<char>>,
    acc: Seq<char>,
    l: Seq<char>,
    j: int,
) -> (Seq<Seq<char>>, Seq<char>)
    decreases l.len() - j,
{
    if j < 0 || j >= l.len() {
        (ss, acc)
    } else {
        let c = l[j];
        let acc1 = acc.push(c);
        if is_stop_char(c) && (j == l.len() - 1 || is_ws_char(l[j + 1]) || is_upper_char(
            l[j + 1],
        )) {
            let t = seq_trim(acc1);
            if t.len() > 5 {
                sent_chars(ss.push(t), Seq::empty(), l, j + 1)
            } else {
                sent_chars(ss, Seq::empty(), l, j + 1)
            }
        } else {
            sent_chars(ss, acc1, l, j + 1)
        }
    }
}

/// Processing one (already trimmed) line: scan its characters, then add a
/// joining space if unfinished content remains.
pub open spec fn sent_line(
    ss: Seq<Seq<char>>,
    acc: Seq<char>,
    l: Seq<char>,
) -> (Seq<Seq<char>>, Seq<char>) {
    if l.len() == 0 {
        (ss, acc)
    } else {
        let r = sent_chars(ss, acc, l, 0);
        if seq_trim(r.1).len() > 0 {
            (r.0, r.1.push(' '))
        } else {
            (r.0, r.1)
        }
    }
}

/// Folding the splitter over all lines.
pub open spec fn sent_lines(ls: Seq<Seq<char>>) -> (Seq<Seq<char>>, Seq<char>)
    decreases ls.len(),
{
    if ls.len() == 0 {
        (Seq::empty(), Seq::empty())
    } else {
        let r = sent_lines(ls.drop_last());
        sent_line(r.0, r.1, seq_trim(ls.last()))
    }
}

/// The sentences of a text.
pub open spec fn sentences_spec(text: Seq<char>) -> Seq<Seq<char>> {
    let r = sent_lines(lines_of(text));
    if seq_trim(r.1).len() > 5 {
        r.0.push(seq_trim(r.1))
    } else {
        r.0
    }
}

/// A sentence as emitted by the splitter: trimmed, longer than five
/// characters.
pub open spec fn good_sentence(x: Seq<char>) -> bool {
    x.len() > 5 && seq_trim(x) == x
}

proof fn lemma_sent_chars_shape(ss: Seq<Seq<char>>, acc: Seq<char>, l: Seq<char>, j: int)
    requires
        forall|k: int| 0 <= k < ss.len() ==> good_sentence(#[trigger] ss[k]),
    ensures
        forall|k: int|
            0 <= k < sent_chars(ss, acc, l, j).0.len() ==> good_sentence(
                #[trigger] sent_chars(ss, acc, l, j).0[k],
            ),
    decreases l.len() - j,
{
    let out = sent_chars(ss, acc, l, j);
    if 0 <= j < l.len() {
        let c = l[j];
        let acc1 = acc.push(c);
        if is_stop_char(c) && (j == l.len() - 1 || is_ws_char(l[j + 1]) || is_upper_char(
            l[j + 1],
        )) {
            let t = seq_trim(acc1);
            if t.len() > 5 {
                crate::chars::lemma_trim_idem(acc1);
                assert(forall|k: int|
                    0 <= k < ss.push(t).len() ==> good_sentence(#[trigger] ss.push(t)[k]))
                    by {
                    assert(forall|k: int|
                        0 <= k < ss.len() ==> #[trigger] ss.push(t)[k] == ss[k]);
                    assert(ss.push(t)[ss.len() as int] == t);
                }
                lemma_sent_chars_shape(ss.push(t), Seq::empty(), l, j + 1);
                assert(out == sent_chars(ss.push(t), Seq::empty(), l, j + 1));
            } else {
                lemma_sent_chars_shape(ss, Seq::empty(), l, j + 1);
                assert(out == sent_chars(ss, Seq::empty(), l, j + 1));
            }
        } else {
            lemma_sent_chars_shape(ss, acc1, l, j + 1);
            assert(out == sent_chars(ss, acc1, l, j + 1));
        }
    } else {
        assert(out.0 == ss);
    }
}

proof fn lemma_sent_lines_shape(ls: Seq<Seq<char>>)
    ensures
        forall|k: int|
            0 <= k < sent_lines(ls).0.len() ==> good_sentence(#[trigger] sent_lines(ls).0[k]),
    decreases ls.len(),
{
    if ls.len() > 0 {
        lemma_sent_lines_shape(ls.drop_last());
        let r = sent_lines(ls.drop_last());
        let lt = seq_trim(ls.last());
        if lt.len() > 0 {
            lemma_sent_chars_shape(r.0, r.1, lt, 0);
        }
    }
}

/// Every sentence the splitter emits is trimmed and longer than five
/// characters.
pub proof fn lemma_sentences_shape(text: Seq<char>)
    ensures
        forall|k: int|
            0 <= k < sentences_spec(text).len() ==> good_sentence(
                #[trigger] sentences_spec(text)[k],
            ),
{
    let r = sent_lines(lines_of(text));
    lemma_sent_lines_shape(lines_of(text));
    let t = seq_trim(r.1);
    if t.len() > 5 {
        crate::chars::lemma_trim_idem(r.1);
        assert(forall|k: int|
            0 <= k < r.0.len() ==> #[trigger] r.0.push(t)[k] == r.0[k]);
        assert(r.0.push(t)[r.0.len() as int] == t);
    }
}

/// An empty text yields no sentences.
pub proof fn lemma_sentences_empty()
    ensures
        sentences_spec(Seq::<char>::empty()).len() == 0,
{
    let e = Seq::<char>::empty();
    assert(lines_of(e) == seq![Seq::<char>::empty()]);
    assert(seq![Seq::<char>::empty()].drop_last() =~= Seq::<Seq<char>>::empty());
    assert(sent_lines(Seq::<Seq<char>>::empty()) == (
        Seq::<Seq<char>>::empty(),
        Seq::<char>::empty(),
    ));
    assert(seq_trim(e) == e);
    assert(sent_lines(seq![Seq::<char>::empty()]) == (
        Seq::<Seq<char>>::empty(),
        Seq::<char>::empty(),
    ));
}



/// Split a text into sentences; the result corresponds to
/// `sentences_spec` of the text.
pub fn split_sentences(v: &Vec<char>) -> (out: Vec<Vec<char>>)
    ensures
        out.deep_view() == sentences_spec(v@),
{
    let lines = split_lines(v);
    let mut ss: Vec<Vec<char>> = Vec::new();
    let mut acc: Vec<char> = Vec::new();
    let mut li: usize = 0;
    while li < lines.len()
        invariant
            li <= lines@.len(),
            lines.deep_view() == lines_of(v@),
            sent_lines(lines.deep_view().take(li as int)) == (ss.deep_view(), acc@),
        decreases lines@.len() - li,
    {
        proof {
            assert(lines.deep_view().take(li + 1).drop_last() =~= lines.deep_view().take(
                li as int,
            ));
            assert(lines.deep_view().take(li + 1).last() == lines.deep_view()[li as int]);
            lemma_chars_deep(lines@[li as int]);
        }
        let lt = trim_chars(&lines[li]);
        let ghost ss0 = ss.deep_view();
        let ghost acc0 = acc@;
        if lt.len() > 0 {
            let n: usize = lt.len();
            let mut j: usize = 0;
            while j < n
                invariant
                    j <= n,
                    n == lt@.len(),
                    sent_chars(ss0, acc0, lt@, 0) == sent_chars(
                        ss.deep_view(),
                        acc@,
                        lt@,
                        j as int,
                    ),
                decreases n - j,
            {
                let c = lt[j];
                let mut boundary = false;
                if c == '.' || c == '!' || c == '?' {
                    if j == n - 1 {
                        boundary = true;
                    } else {
                        let nc = lt[j + 1];
                        if ws_char(nc) || upper_char(nc) {
                            boundary = true;
                        }
                    }
                }
                acc.push(c);
                if boundary {
                    let t = trim_chars(&acc);
                    if t.len() > 5 {
                        let ghost ss_pre = ss;
                        let ghost tv = t@;
                        ss.push(t);
                        proof {
                            lemma_deep_push(ss_pre, ss, ss@.last());
                        }
                    }
                    acc = Vec::new();
                }
                j = j + 1;
            }
            let ghost ss_scan = ss.deep_view();
            let ghost acc_scan = acc@;
            proof {
                assert(sent_chars(ss_scan, acc_scan, lt@, n as int) == (ss_scan, acc_scan));
                assert(sent_chars(ss0, acc0, lt@, 0) == (ss_scan, acc_scan));
            }
            let t2 = trim_chars(&acc);
            if t2.len() > 0 {
                acc.push(' ');
            }
            proof {
                assert(sent_line(ss0, acc0, lt@) == (ss.deep_view(), acc@));
            }
        }
        proof {
            assert(seq_trim(lines.deep_view()[li as int]) == lt@);
            assert(sent_lines(lines.deep_view().take(li + 1)) == (ss.deep_view(), acc@));
        }
        li = li + 1;
    }
    proof {
        assert(lines.deep_view().take(lines@.len() as int) =~= lines.deep_view());
    }
    let tfin = trim_chars(&acc);
    if tfin.len() > 5 {
        let ghost ss_pre = ss;
        ss.push(tfin);
        proof {
            lemma_deep_push(ss_pre, ss, ss@.last());
        }
    }
    ss
}

/// Sentence split of a string, as owned strings.
pub fn split_sentences_str(text: &str) -> (out: Vec<String>)
    ensures
        out.deep_view() == sentences_spec(text@),
{
    let v = chars_of(text);
    let parts = split_sentences(&v);
    let mut out: Vec<String> = Vec::new();
    let mut i: usize = 0;
    while i < parts.len()
        invariant
            i <= parts@.len(),
            out.deep_view() == parts.deep_view().take(i as int),
        decreases parts@.len() - i,
    {
        proof {
            lemma_chars_deep(parts@[i as int]);
        }
        let s = crate::chars::string_of(&parts[i]);
        let ghost out_pre = out;
        out.push(s);
        i = i + 1;
        proof {
            lemma_deep_push_str(out_pre, out, out@.last());
            assert(out.deep_view() =~= parts.deep_view().take(i as int));
        }
    }
    proof {
        assert(parts.deep_view().take(parts@.len() as int) =~= parts.deep_view());
    }
    out
}


} // verus!
