//! Sentence packing.
//!
//! Sentences are packed greedily into fragments bounded by a target size.
//! When a fragment is full it is emitted (if its trimmed length exceeds ten
//! characters) and the next fragment is seeded with an overlap: whole
//! sentences taken backwards from the split point while their joined length
//! stays within the overlap budget.

use vstd::prelude::*;
use crate::chars::seq_trim;
use crate::chars::is_ws_char;
use crate::chars::trim_chars;
use crate::chars::lemma_chars_deep;
use crate::chars::lemma_deep_push;

verus! {

/// The joined length (with one separating space per sentence) of the
/// sentences `[j, i)`, counting a trailing separator as well.
pub open spec fn cost(s: Seq<Seq<char>>, j: int, i: int) -> int
    decreases i - j,
{
    if j >= i {
        0
    } else {
        cost(s, j, i - 1) + s[i - 1].len() + 1
    }
}

/// The sentences `[j, e)` joined by single spaces.
pub open spec fn join_sents(s: Seq<Seq<char>>, j: int, e: int) -> Seq<char>
    decreases e - j,
{
    if j >= e {
        Seq::empty()
    } else if e == j + 1 {
        s[j]
    } else {
        join_sents(s, j, e - 1) + seq![' '] + s[e - 1]
    }
}

/// Walk backwards from `i` while the accumulated sentences still fit the
/// overlap budget.
pub open spec fn ostart(s: Seq<Seq<char>>, j: int, i: int, ov: int) -> int
    decreases j,
{
    if j > 0 && cost(s, j - 1, i) <= ov {
        ostart(s, j - 1, i, ov)
    } else {
        j
    }
}

/// Where the overlap seeded at split point `i` begins.
pub open spec fn overlap_start(s: Seq<Seq<char>>, i: int, ov: int) -> int {
    ostart(s, i, i, ov)
}

/// One packing run `(start, core, end)`: the fragment holds the sentences
/// `[start, end)`; the sentences `[start, core)` are its injected overlap
/// prefix and `[core, end)` its own core content.
pub open spec fn pack_from(
    s: Seq<Seq<char>>,
    cs: int,
    ov: int,
    i: int,
    runs: Seq<(int, int, int)>,
    cur: Option<(int, int)>,
) -> Seq<(int, int, int)>
    decreases s.len() - i,
{
    if i < 0 || i >= s.len() {
        match cur {
            None => runs,
            Some(jb) => {
                if seq_trim(join_sents(s, jb.0, s.len() as int)).len() > 10 {
                    runs.push((jb.0, jb.1, s.len() as int))
                } else {
                    runs
                }
            },
        }
    } else {
        match cur {
            None => pack_from(s, cs, ov, i + 1, runs, Some((i, i))),
            Some(jb) => {
                if join_sents(s, jb.0, i).len() + s[i].len() + 1 > cs {
                    let runs2 = if seq_trim(join_sents(s, jb.0, i)).len() > 10 {
                        runs.push((jb.0, jb.1, i))
                    } else {
                        runs
                    };
                    let j2 = if runs2.len() == 0 || ov == 0 {
                        i
                    } else {
                        overlap_start(s, i, ov)
                    };
                    pack_from(s, cs, ov, i + 1, runs2, Some((j2, i)))
                } else {
                    pack_from(s, cs, ov, i + 1, runs, cur)
                }
            },
        }
    }
}

/// The packing runs of a sentence list.
pub open spec fn pack_runs(s: Seq<Seq<char>>, cs: int, ov: int) -> Seq<(int, int, int)> {
    pack_from(s, cs, ov, 0, Seq::empty(), None)
}

/// The emitted text of one run.
pub open spec fn run_text(s: Seq<Seq<char>>, r: (int, int, int)) -> Seq<char> {
    seq_trim(join_sents(s, r.0, r.2))
}

/// The fragments produced from a sentence list.
pub open spec fn chunks_spec(s: Seq<Seq<char>>, cs: int, ov: int) -> Seq<Seq<char>> {
    pack_runs(s, cs, ov).map_values(|r: (int, int, int)| run_text(s, r))
}

// ---------------------------------------------------------------------------
// Laws of the packing
// ---------------------------------------------------------------------------

/// Shape of one packing run: inside the sentence list, the overlap prefix
/// within the overlap budget, the emitted text longer than ten characters.
pub open spec fn run_wf(s: Seq<Seq<char>>, ov: int, r: (int, int, int)) -> bool {
    0 <= r.0 <= r.1 < r.2 <= s.len() && (r.0 == r.1 || cost(s, r.0, r.1) <= ov) && seq_trim(
        join_sents(s, r.0, r.2),
    ).len() > 10
}

proof fn lemma_pack_wf(
    s: Seq<Seq<char>>,
    cs: int,
    ov: int,
    i: int,
    runs: Seq<(int, int, int)>,
    cur: Option<(int, int)>,
)
    requires
        ov >= 0,
        0 <= i <= s.len(),
        forall|k: int| 0 <= k < runs.len() ==> run_wf(s, ov, #[trigger] runs[k]),
        match cur {
            None => i == 0,
            Some(jb) => 0 <= jb.0 <= jb.1 < i && (jb.0 == jb.1 || cost(s, jb.0, jb.1) <= ov),
        },
    ensures
        forall|k: int|
            0 <= k < pack_from(s, cs, ov, i, runs, cur).len() ==> run_wf(
                s,
                ov,
                #[trigger] pack_from(s, cs, ov, i, runs, cur)[k],
            ),
    decreases s.len() - i,
{
    let out = pack_from(s, cs, ov, i, runs, cur);
    if i >= s.len() {
        match cur {
            None => {
                assert(out == runs);
                assert forall|k: int| 0 <= k < out.len() implies run_wf(s, ov, out[k]) by {
                    assert(out[k] == runs[k]);
                }
            },
            Some(jb) => {
                if seq_trim(join_sents(s, jb.0, s.len() as int)).len() > 10 {
                    let r = (jb.0, jb.1, s.len() as int);
                    assert(out == runs.push(r));
                    assert forall|k: int| 0 <= k < out.len() implies run_wf(s, ov, out[k]) by {
                        if k < runs.len() {
                            assert(out[k] == runs[k]);
                        } else {
                            assert(out[k] == r);
                        }
                    }
                } else {
                    assert(out == runs);
                    assert forall|k: int| 0 <= k < out.len() implies run_wf(s, ov, out[k]) by {
                        assert(out[k] == runs[k]);
                    }
                }
            },
        }
    } else {
        match cur {
            None => {
                lemma_pack_wf(s, cs, ov, i + 1, runs, Some((i, i)));
                assert(out == pack_from(s, cs, ov, i + 1, runs, Some((i, i))));
            },
            Some(jb) => {
                if join_sents(s, jb.0, i).len() + s[i].len() + 1 > cs {
                    let runs2 = if seq_trim(join_sents(s, jb.0, i)).len() > 10 {
                        runs.push((jb.0, jb.1, i))
                    } else {
                        runs
                    };
                    assert(forall|k: int|
                        0 <= k < runs2.len() ==> run_wf(s, ov, #[trigger] runs2[k])) by {
                        if seq_trim(join_sents(s, jb.0, i)).len() > 10 {
                            assert(forall|k: int|
                                0 <= k < runs.len() ==> #[trigger] runs2[k] == runs[k]);
                            assert(runs2[runs.len() as int] == (jb.0, jb.1, i));
                        }
                    }
                    let j2 = if runs2.len() == 0 || ov == 0 {
                        i
                    } else {
                        overlap_start(s, i, ov)
                    };
                    if !(runs2.len() == 0 || ov == 0) {
                        lemma_ostart(s, i, i, ov);
                        assert(cost(s, i, i) == 0);
                    }
                    lemma_pack_wf(s, cs, ov, i + 1, runs2, Some((j2, i)));
                    assert(out == pack_from(s, cs, ov, i + 1, runs2, Some((j2, i))));
                } else {
                    lemma_pack_wf(s, cs, ov, i + 1, runs, Some((jb.0, jb.1)));
                    assert(cur == Some((jb.0, jb.1)));
                    assert(out == pack_from(s, cs, ov, i + 1, runs, Some((jb.0, jb.1))));
                }
            },
        }
    }
}

/// Every fragment is longer than ten characters, and an empty sentence
/// list yields no fragments.
pub proof fn lemma_chunks_min_len(s: Seq<Seq<char>>, cs: int, ov: int)
    requires
        ov >= 0,
    ensures
        forall|k: int|
            0 <= k < chunks_spec(s, cs, ov).len() ==> #[trigger] chunks_spec(s, cs, ov)[k].len()
                > 10,
        s.len() == 0 ==> chunks_spec(s, cs, ov).len() == 0,
{
    lemma_pack_wf(s, cs, ov, 0, Seq::empty(), None);
    assert forall|k: int| 0 <= k < chunks_spec(s, cs, ov).len() implies #[trigger] chunks_spec(
        s,
        cs,
        ov,
    )[k].len() > 10 by {
        assert(chunks_spec(s, cs, ov)[k] == run_text(s, pack_runs(s, cs, ov)[k]));
        assert(run_wf(s, ov, pack_runs(s, cs, ov)[k]));
    }
}

/// The length of the longest sentence.
pub open spec fn max_sent_len(s: Seq<Seq<char>>) -> int
    decreases s.len(),
{
    if s.len() == 0 {
        0
    } else if s.last().len() > max_sent_len(s.drop_last()) {
        s.last().len() as int
    } else {
        max_sent_len(s.drop_last())
    }
}

proof fn lemma_max_sent_len(s: Seq<Seq<char>>)
    ensures
        forall|t: int| 0 <= t < s.len() ==> (#[trigger] s[t]).len() <= max_sent_len(s),
        max_sent_len(s) >= 0,
    decreases s.len(),
{
    if s.len() > 0 {
        lemma_max_sent_len(s.drop_last());
        assert forall|t: int| 0 <= t < s.len() implies (#[trigger] s[t]).len() <= max_sent_len(
            s,
        ) by {
            if t < s.len() - 1 {
                assert(s.drop_last()[t] == s[t]);
            }
        }
    }
}

proof fn lemma_pack_size(
    s: Seq<Seq<char>>,
    cs: int,
    ov: int,
    i: int,
    runs: Seq<(int, int, int)>,
    cur: Option<(int, int)>,
)
    requires
        cs >= 0,
        ov >= 0,
        0 <= i <= s.len(),
        forall|k: int|
            0 <= k < runs.len() ==> run_text(s, #[trigger] runs[k]).len() <= vstd::math::max(
                cs,
                ov + max_sent_len(s),
            ),
        match cur {
            None => true,
            Some(jb) => 0 <= jb.0 <= jb.1 < i && join_sents(s, jb.0, i).len() <= vstd::math::max(
                cs,
                ov + max_sent_len(s),
            ),
        },
    ensures
        forall|k: int|
            0 <= k < pack_from(s, cs, ov, i, runs, cur).len() ==> run_text(
                s,
                #[trigger] pack_from(s, cs, ov, i, runs, cur)[k],
            ).len() <= vstd::math::max(cs, ov + max_sent_len(s)),
    decreases s.len() - i,
{
    let bound = vstd::math::max(cs, ov + max_sent_len(s));
    let out = pack_from(s, cs, ov, i, runs, cur);
    lemma_max_sent_len(s);
    if i >= s.len() {
        match cur {
            None => {
                assert(forall|k: int|
                    0 <= k < out.len() ==> #[trigger] out[k] == runs[k]);
            },
            Some(jb) => {
                crate::chars::lemma_trim_shape(join_sents(s, jb.0, s.len() as int));
                if seq_trim(join_sents(s, jb.0, s.len() as int)).len() > 10 {
                    let r = (jb.0, jb.1, s.len() as int);
                    assert forall|k: int| 0 <= k < out.len() implies run_text(s, out[k]).len()
                        <= bound by {
                        if k < runs.len() {
                            assert(out[k] == runs[k]);
                        } else {
                            assert(out[k] == r);
                        }
                    }
                } else {
                    assert(forall|k: int|
                        0 <= k < out.len() ==> #[trigger] out[k] == runs[k]);
                }
            },
        }
    } else {
        match cur {
            None => {
                assert(join_sents(s, i, i + 1) == s[i]);
                lemma_pack_size(s, cs, ov, i + 1, runs, Some((i, i)));
                assert(out == pack_from(s, cs, ov, i + 1, runs, Some((i, i))));
            },
            Some(jb) => {
                if join_sents(s, jb.0, i).len() + s[i].len() + 1 > cs {
                    let runs2 = if seq_trim(join_sents(s, jb.0, i)).len() > 10 {
                        runs.push((jb.0, jb.1, i))
                    } else {
                        runs
                    };
                    crate::chars::lemma_trim_shape(join_sents(s, jb.0, i));
                    assert(forall|k: int|
                        0 <= k < runs2.len() ==> run_text(s, #[trigger] runs2[k]).len()
                            <= bound) by {
                        if seq_trim(join_sents(s, jb.0, i)).len() > 10 {
                            assert(forall|k: int|
                                0 <= k < runs.len() ==> #[trigger] runs2[k] == runs[k]);
                            assert(runs2[runs.len() as int] == (jb.0, jb.1, i));
                        }
                    }
                    let j2 = if runs2.len() == 0 || ov == 0 {
                        i
                    } else {
                        overlap_start(s, i, ov)
                    };
                    lemma_ostart(s, i, i, ov);
                    // the freshly seeded fragment: the overlap stays within
                    // its budget, and one sentence is appended
                    assert(join_sents(s, j2, i + 1).len() <= ov + s[i].len()) by {
                        if j2 < i {
                            lemma_join_len(s, j2, i + 1);
                            assert(cost(s, j2, i + 1) == cost(s, j2, i) + s[i].len() + 1);
                            assert(cost(s, j2, i) <= ov);
                        } else {
                            assert(join_sents(s, i, i + 1) == s[i]);
                        }
                    }
                    lemma_pack_size(s, cs, ov, i + 1, runs2, Some((j2, i)));
                    assert(out == pack_from(s, cs, ov, i + 1, runs2, Some((j2, i))));
                } else {
                    assert(join_sents(s, jb.0, i + 1).len() <= cs) by {
                        if jb.0 < i {
                            lemma_join_len(s, jb.0, i + 1);
                            lemma_join_len(s, jb.0, i);
                            assert(cost(s, jb.0, i + 1) == cost(s, jb.0, i) + s[i].len() + 1);
                        }
                    }
                    lemma_pack_size(s, cs, ov, i + 1, runs, Some((jb.0, jb.1)));
                    assert(out == pack_from(s, cs, ov, i + 1, runs, Some((jb.0, jb.1))));
                }
            },
        }
    }
}

/// No fragment outgrows the chunk target by more than one sentence plus
/// the overlap budget: every fragment is at most the larger of the target
/// size and the overlap budget plus the longest sentence.
pub proof fn lemma_chunks_max_len(s: Seq<Seq<char>>, cs: int, ov: int)
    requires
        cs >= 0,
        ov >= 0,
    ensures
        forall|k: int|
            0 <= k < chunks_spec(s, cs, ov).len() ==> #[trigger] chunks_spec(s, cs, ov)[k].len()
                <= vstd::math::max(cs, ov + max_sent_len(s)),
{
    lemma_pack_size(s, cs, ov, 0, Seq::empty(), None);
    assert forall|k: int| 0 <= k < chunks_spec(s, cs, ov).len() implies #[trigger] chunks_spec(
        s,
        cs,
        ov,
    )[k].len() <= vstd::math::max(cs, ov + max_sent_len(s)) by {
        assert(chunks_spec(s, cs, ov)[k] == run_text(s, pack_runs(s, cs, ov)[k]));
    }
}

/// Cost is additive over adjacent ranges.
proof fn lemma_cost_add(s: Seq<Seq<char>>, j: int, m: int, i: int)
    requires
        j <= m <= i,
    ensures
        cost(s, j, i) == cost(s, j, m) + cost(s, m, i),
    decreases i - m,
{
    if m < i {
        lemma_cost_add(s, j, m, i - 1);
        assert(cost(s, m, i) == cost(s, m, i - 1) + s[i - 1].len() + 1);
    }
}

/// Every sentence costs at least one.
proof fn lemma_cost_pos(s: Seq<Seq<char>>, j: int, i: int)
    requires
        j <= i,
    ensures
        cost(s, j, i) >= i - j,
    decreases i - j,
{
    if j < i {
        lemma_cost_pos(s, j, i - 1);
    }
}

/// The length of a join, in terms of cost.
proof fn lemma_join_len(s: Seq<Seq<char>>, j: int, e: int)
    requires
        j <= e,
    ensures
        j < e ==> join_sents(s, j, e).len() == cost(s, j, e) - 1,
        j >= e ==> join_sents(s, j, e).len() == 0,
    decreases e - j,
{
    if j < e {
        if e == j + 1 {
            assert(cost(s, j, j) == 0);
            assert(cost(s, j, e) == s[j].len() + 1);
            assert(join_sents(s, j, e) == s[j]);
        } else {
            lemma_join_len(s, j, e - 1);
            assert(cost(s, j, e) == cost(s, j, e - 1) + s[e - 1].len() + 1);
        }
    }
}

/// Splitting a join of whole sentences at a sentence boundary.
proof fn lemma_join_split(s: Seq<Seq<char>>, j: int, m: int, e: int)
    requires
        j < m < e,
    ensures
        join_sents(s, j, e) == join_sents(s, j, m) + seq![' '] + join_sents(s, m, e),
    decreases e - m,
{
    if e == m + 1 {
        assert(join_sents(s, m, e) == s[m]);
    } else {
        lemma_join_split(s, j, m, e - 1);
        assert(join_sents(s, j, e) == join_sents(s, j, e - 1) + seq![' '] + s[e - 1]);
        assert(join_sents(s, m, e) == join_sents(s, m, e - 1) + seq![' '] + s[e - 1]);
        assert((join_sents(s, j, m) + seq![' '] + join_sents(s, m, e - 1)) + seq![' '] + s[e - 1]
            =~= join_sents(s, j, m) + seq![' '] + (join_sents(s, m, e - 1) + seq![' '] + s[e
            - 1]));
    }
}

/// A join of trimmed, nonempty sentences is itself trimmed.
proof fn lemma_join_trimmed(s: Seq<Seq<char>>, j: int, e: int)
    requires
        0 <= j < e <= s.len(),
        forall|t: int|
            j <= t < e ==> #[trigger] s[t].len() > 0 && !is_ws_char(s[t].first()) && !is_ws_char(
                s[t].last(),
            ),
    ensures
        join_sents(s, j, e).len() > 0,
        !is_ws_char(join_sents(s, j, e).first()),
        !is_ws_char(join_sents(s, j, e).last()),
        seq_trim(join_sents(s, j, e)) == join_sents(s, j, e),
    decreases e - j,
{
    if e == j + 1 {
        crate::chars::lemma_trim_shape(s[j]);
    } else {
        lemma_join_trimmed(s, j, e - 1);
        let pre = join_sents(s, j, e - 1);
        let all = join_sents(s, j, e);
        assert(all == pre + seq![' '] + s[e - 1]);
        assert(all.first() == pre.first());
        assert(all.last() == s[e - 1].last()) by {
            assert(all[all.len() - 1] == s[e - 1][s[e - 1].len() - 1]);
        }
        crate::chars::lemma_trim_shape(all);
    }
}

/// Sentences at least eleven characters long, each trimmed: under this
/// condition no fragment candidate is ever dropped.
pub open spec fn all_sentences_long(s: Seq<Seq<char>>) -> bool {
    forall|t: int|
        0 <= t < s.len() ==> #[trigger] s[t].len() > 10 && seq_trim(s[t]) == s[t]
}

proof fn lemma_long_shape(s: Seq<Seq<char>>)
    requires
        all_sentences_long(s),
    ensures
        forall|t: int|
            0 <= t < s.len() ==> #[trigger] s[t].len() > 0 && !is_ws_char(s[t].first())
                && !is_ws_char(s[t].last()),
{
    assert forall|t: int| 0 <= t < s.len() implies #[trigger] s[t].len() > 0 && !is_ws_char(
        s[t].first(),
    ) && !is_ws_char(s[t].last()) by {
        crate::chars::lemma_trim_shape(s[t]);
    }
}

proof fn lemma_pack_chain(
    s: Seq<Seq<char>>,
    cs: int,
    ov: int,
    i: int,
    runs: Seq<(int, int, int)>,
    cur: Option<(int, int)>,
)
    requires
        all_sentences_long(s),
        ov >= 0,
        0 <= i <= s.len(),
        forall|k: int|
            0 <= k < runs.len() ==> 0 <= (#[trigger] runs[k]).0 <= runs[k].1 < runs[k].2 <= i,
        runs.len() > 0 ==> runs[0].1 == 0,
        forall|k: int| 0 <= k < runs.len() - 1 ==> (#[trigger] runs[k]).2 == runs[k + 1].1,
        match cur {
            None => i == 0 && runs.len() == 0,
            Some(jb) => 0 <= jb.0 <= jb.1 < i && (runs.len() == 0 ==> jb.1 == 0) && (runs.len()
                > 0 ==> runs[runs.len() - 1].2 == jb.1),
        },
    ensures
        ({
            let out = pack_from(s, cs, ov, i, runs, cur);
            &&& forall|k: int|
                0 <= k < out.len() ==> 0 <= (#[trigger] out[k]).0 <= out[k].1 < out[k].2
                    <= s.len()
            &&& out.len() > 0 ==> out[0].1 == 0
            &&& forall|k: int| 0 <= k < out.len() - 1 ==> (#[trigger] out[k]).2 == out[k + 1].1
            &&& cur is Some ==> out.len() > 0 && out[out.len() - 1].2 == s.len()
            &&& cur is None && i == s.len() ==> out == runs
        }),
    decreases s.len() - i,
{
    lemma_long_shape(s);
    let out = pack_from(s, cs, ov, i, runs, cur);
    if i >= s.len() {
        match cur {
            None => {},
            Some(jb) => {
                lemma_join_trimmed(s, jb.0, s.len() as int);
                lemma_join_len(s, jb.0, s.len() as int);
                lemma_cost_add(s, jb.0, jb.1, s.len() as int);
                lemma_cost_pos(s, jb.0, jb.1);
                lemma_cost_front(s, jb.1, s.len() as int);
                lemma_cost_pos(s, jb.1 + 1, s.len() as int);
                assert(cost(s, jb.1, s.len() as int) >= s[jb.1].len() + 1);
                assert(seq_trim(join_sents(s, jb.0, s.len() as int)).len() > 10);
                let r = (jb.0, jb.1, s.len() as int);
                assert(out == runs.push(r));
                assert forall|k: int| 0 <= k < out.len() implies 0 <= (#[trigger] out[k]).0
                    <= out[k].1 < out[k].2 <= s.len() by {
                    if k < runs.len() {
                        assert(out[k] == runs[k]);
                    } else {
                        assert(out[k] == r);
                    }
                }
                assert forall|k: int| 0 <= k < out.len() - 1 implies (#[trigger] out[k]).2
                    == out[k + 1].1 by {
                    if k < runs.len() - 1 {
                        assert(out[k] == runs[k] && out[k + 1] == runs[k + 1]);
                    } else {
                        assert(out[k] == runs[runs.len() - 1] && out[k + 1] == r);
                    }
                }
                if runs.len() > 0 {
                    assert(out[0] == runs[0]);
                }
            },
        }
    } else {
        match cur {
            None => {
                lemma_pack_chain(s, cs, ov, i + 1, runs, Some((i, i)));
            },
            Some(jb) => {
                if join_sents(s, jb.0, i).len() + s[i].len() + 1 > cs {
                    // the candidate is always kept: it holds at least one
                    // sentence of more than ten characters
                    lemma_join_trimmed(s, jb.0, i);
                    lemma_join_len(s, jb.0, i);
                    lemma_cost_add(s, jb.0, jb.1, i);
                    lemma_cost_pos(s, jb.0, jb.1);
                    lemma_cost_front(s, jb.1, i);
                    lemma_cost_pos(s, jb.1 + 1, i);
                    assert(cost(s, jb.1, i) >= s[jb.1].len() + 1);
                    assert(seq_trim(join_sents(s, jb.0, i)).len() > 10);
                    let r = (jb.0, jb.1, i);
                    let runs2 = runs.push(r);
                    assert(forall|k: int|
                        0 <= k < runs.len() ==> #[trigger] runs2[k] == runs[k]);
                    assert(runs2[runs.len() as int] == r);
                    let j2 = if runs2.len() == 0 || ov == 0 {
                        i
                    } else {
                        overlap_start(s, i, ov)
                    };
                    lemma_ostart(s, i, i, ov);
                    assert(forall|k: int|
                        0 <= k < runs2.len() - 1 ==> (#[trigger] runs2[k]).2 == runs2[k
                            + 1].1) by {
                        assert forall|k: int| 0 <= k < runs2.len() - 1 implies (
                        #[trigger] runs2[k]).2 == runs2[k + 1].1 by {
                            if k < runs.len() - 1 {
                                assert(runs2[k] == runs[k] && runs2[k + 1] == runs[k + 1]);
                            } else {
                                assert(runs2[k + 1] == r);
                            }
                        }
                    }
                    lemma_pack_chain(s, cs, ov, i + 1, runs2, Some((j2, i)));
                } else {
                    lemma_pack_chain(s, cs, ov, i + 1, runs, Some((jb.0, jb.1)));
                }
            },
        }
    }
}

/// When every sentence is longer than ten characters, the fragments' core
/// sentence ranges partition the sentence list in order: the first core
/// begins at the first sentence, each next core begins where the previous
/// one ended, and the last core ends at the last sentence.  Concatenating
/// the cores therefore reconstructs the sentence sequence exactly.
pub proof fn lemma_chunk_cores_partition(s: Seq<Seq<char>>, cs: int, ov: int)
    requires
        all_sentences_long(s),
        ov >= 0,
    ensures
        ({
            let runs = pack_runs(s, cs, ov);
            &&& forall|k: int|
                0 <= k < runs.len() ==> 0 <= (#[trigger] runs[k]).0 <= runs[k].1 < runs[k].2
                    <= s.len()
            &&& forall|k: int| 0 <= k < runs.len() - 1 ==> (#[trigger] runs[k]).2 == runs[k + 1].1
            &&& s.len() == 0 ==> runs.len() == 0
            &&& s.len() > 0 ==> runs.len() > 0 && runs[0].1 == 0 && runs[runs.len() - 1].2
                == s.len()
        }),
{
    if s.len() == 0 {
        lemma_pack_chain(s, cs, ov, 0, Seq::empty(), None);
    } else {
        assert(pack_runs(s, cs, ov) == pack_from(s, cs, ov, 1, Seq::empty(), Some((0, 0))));
        lemma_pack_chain(s, cs, ov, 1, Seq::empty(), Some((0, 0)));
    }
}

/// Each fragment is its overlap prefix followed by its core content: the
/// join of its core sentences.  Dropping the prefixes leaves exactly the
/// cores.
pub proof fn lemma_chunk_decomposition(s: Seq<Seq<char>>, cs: int, ov: int, k: int)
    requires
        forall|t: int| 0 <= t < s.len() ==> (#[trigger] s[t]).len() > 0 && seq_trim(s[t]) == s[t],
        ov >= 0,
        0 <= k < pack_runs(s, cs, ov).len(),
    ensures
        ({
            let r = pack_runs(s, cs, ov)[k];
            chunks_spec(s, cs, ov)[k] == (if r.0 < r.1 {
                join_sents(s, r.0, r.1) + seq![' ']
            } else {
                Seq::<char>::empty()
            }) + join_sents(s, r.1, r.2)
        }),
{
    lemma_pack_wf(s, cs, ov, 0, Seq::empty(), None);
    let r = pack_runs(s, cs, ov)[k];
    assert(run_wf(s, ov, r));
    assert forall|t: int| r.0 <= t < r.2 implies #[trigger] s[t].len() > 0 && !is_ws_char(
        s[t].first(),
    ) && !is_ws_char(s[t].last()) by {
        crate::chars::lemma_trim_shape(s[t]);
    }
    lemma_join_trimmed(s, r.0, r.2);
    assert(chunks_spec(s, cs, ov)[k] == run_text(s, r));
    if r.0 < r.1 {
        lemma_join_split(s, r.0, r.1, r.2);
        assert((join_sents(s, r.0, r.1) + seq![' ']) + join_sents(s, r.1, r.2) =~= join_sents(
            s,
            r.0,
            r.1,
        ) + seq![' '] + join_sents(s, r.1, r.2));
    } else {
        assert(Seq::<char>::empty() + join_sents(s, r.1, r.2) =~= join_sents(s, r.1, r.2));
    }
}

/// The overlap prefix of every fragment stays within the overlap budget.
pub proof fn lemma_overlap_within_budget(s: Seq<Seq<char>>, cs: int, ov: int, k: int)
    requires
        ov >= 0,
        0 <= k < pack_runs(s, cs, ov).len(),
    ensures
        ({
            let r = pack_runs(s, cs, ov)[k];
            join_sents(s, r.0, r.1).len() < ov || r.0 == r.1
        }),
{
    lemma_pack_wf(s, cs, ov, 0, Seq::empty(), None);
    let r = pack_runs(s, cs, ov)[k];
    assert(run_wf(s, ov, r));
    if r.0 < r.1 {
        lemma_join_len(s, r.0, r.1);
    }
}

/// `a` is a suffix of `b`.
pub open spec fn suffix_of(a: Seq<char>, b: Seq<char>) -> bool {
    a.len() <= b.len() && b.skip(b.len() - a.len()) == a
}

/// For two consecutive fragments, the overlap prefix of the later one is a
/// whole-sentence suffix of the earlier one, provided it is not longer
/// than the earlier fragment.
pub proof fn lemma_overlap_prefix_is_suffix(s: Seq<Seq<char>>, cs: int, ov: int, k: int)
    requires
        all_sentences_long(s),
        ov >= 0,
        0 <= k < pack_runs(s, cs, ov).len() - 1,
        join_sents(s, pack_runs(s, cs, ov)[k + 1].0, pack_runs(s, cs, ov)[k + 1].1).len()
            <= chunks_spec(s, cs, ov)[k].len(),
    ensures
        suffix_of(
            join_sents(s, pack_runs(s, cs, ov)[k + 1].0, pack_runs(s, cs, ov)[k + 1].1),
            chunks_spec(s, cs, ov)[k],
        ),
{
    lemma_long_shape(s);
    lemma_chunk_cores_partition(s, cs, ov);
    lemma_pack_wf(s, cs, ov, 0, Seq::empty(), None);
    let runs = pack_runs(s, cs, ov);
    let r1 = runs[k];
    let r2 = runs[k + 1];
    assert(run_wf(s, ov, r1));
    assert(run_wf(s, ov, r2));
    assert(r1.2 == r2.1);
    let e = r1.2;
    lemma_join_trimmed(s, r1.0, e);
    assert(chunks_spec(s, cs, ov)[k] == run_text(s, r1));
    let chunk = join_sents(s, r1.0, e);
    let pre = join_sents(s, r2.0, r2.1);
    if r2.0 == r2.1 {
        assert(pre.len() == 0);
        assert(chunk.skip(chunk.len() - 0) =~= pre);
    } else {
        // both texts end at sentence e; compare their starts
        lemma_join_len(s, r1.0, e);
        lemma_join_len(s, r2.0, e);
        if r2.0 < r1.0 {
            lemma_cost_add(s, r2.0, r1.0, e);
            lemma_cost_pos(s, r2.0, r1.0);
            assert(false);
        }
        if r1.0 == r2.0 {
            assert(chunk.skip(chunk.len() - pre.len()) =~= pre);
        } else {
            lemma_join_split(s, r1.0, r2.0, e);
            assert(chunk == join_sents(s, r1.0, r2.0) + seq![' '] + pre);
            assert(chunk.skip(chunk.len() - pre.len()) =~= pre);
        }
    }
}

// ---------------------------------------------------------------------------
// Executable packing
// ---------------------------------------------------------------------------

fn over_limit(cur_len: usize, slen: usize, cs: usize) -> (r: bool)
    ensures
        r == (cur_len + slen + 1 > cs),
{
    if slen >= cs {
        true
    } else {
        cur_len > cs - slen - 1
    }
}

fn fits_overlap(oc: usize, slen: usize, ov: usize) -> (r: bool)
    ensures
        r == (oc + slen + 1 <= ov),
{
    if slen >= ov {
        false
    } else {
        oc <= ov - slen - 1
    }
}



/// The join of at least one sentence is at least as long as its first one.
proof fn lemma_join_lower(s: Seq<Seq<char>>, j: int, e: int)
    requires
        0 <= j < e <= s.len(),
    ensures
        join_sents(s, j, e).len() >= s[j].len(),
    decreases e - j,
{
    if e > j + 1 {
        lemma_join_lower(s, j, e - 1);
    }
}

/// Where the overlap walk stops: inside the list, within budget, maximal.
proof fn lemma_ostart(s: Seq<Seq<char>>, j: int, i: int, ov: int)
    requires
        0 <= j <= i,
    ensures
        0 <= ostart(s, j, i, ov) <= j,
        cost(s, j, i) <= ov ==> cost(s, ostart(s, j, i, ov), i) <= ov,
    decreases j,
{
    if j > 0 && cost(s, j - 1, i) <= ov {
        lemma_ostart(s, j - 1, i, ov);
    }
}

/// Peeling the first sentence off a cost.
proof fn lemma_cost_front(s: Seq<Seq<char>>, j: int, i: int)
    requires
        j < i,
    ensures
        cost(s, j, i) == s[j].len() + 1 + cost(s, j + 1, i),
    decreases i - j,
{
    if i > j + 1 {
        lemma_cost_front(s, j, i - 1);
        assert(cost(s, j + 1, i) == cost(s, j + 1, i - 1) + s[i - 1].len() + 1);
    } else {
        assert(cost(s, j, i) == cost(s, j, j) + s[j].len() + 1);
        assert(cost(s, j + 1, i) == 0);
    }
}

fn overlap_begin(sents: &Vec<Vec<char>>, i: usize, ov: usize) -> (ob: usize)
    requires
        i <= sents@.len(),
    ensures
        ob as int == overlap_start(sents.deep_view(), i as int, ov as int),
        ob <= i,
{
    let ghost s = sents.deep_view();
    let mut k: usize = i;
    let mut oc: usize = 0;
    proof {
        assert(cost(s, i as int, i as int) == 0);
    }
    while k > 0 && fits_overlap(oc, sents[k - 1].len(), ov)
        invariant
            k <= i,
            i <= sents@.len(),
            s == sents.deep_view(),
            oc as int == cost(s, k as int, i as int),
            oc <= ov,
            ostart(s, k as int, i as int, ov as int) == ostart(
                s,
                i as int,
                i as int,
                ov as int,
            ),
        decreases k,
    {
        proof {
            lemma_chars_deep(sents@[k - 1]);
            lemma_cost_front(s, k - 1, i as int);
            assert(cost(s, k - 1, i as int) == oc + s[k - 1].len() + 1);
        }
        oc = oc + sents[k - 1].len() + 1;
        k = k - 1;
    }
    proof {
        if k > 0 {
            lemma_chars_deep(sents@[k - 1]);
            lemma_cost_front(s, k - 1, i as int);
            assert(cost(s, k - 1, i as int) == oc + s[k - 1].len() + 1);
            assert(cost(s, k - 1, i as int) > ov);
        }
        assert(ostart(s, k as int, i as int, ov as int) == k as int);
    }
    k
}

/// Join the sentences `[j, e)` with single spaces.
fn join_range(sents: &Vec<Vec<char>>, j: usize, e: usize) -> (out: Vec<char>)
    requires
        j <= e <= sents@.len(),
    ensures
        out@ == join_sents(sents.deep_view(), j as int, e as int),
{
    let ghost s = sents.deep_view();
    let mut out: Vec<char> = Vec::new();
    let mut k: usize = j;
    while k < e
        invariant
            j <= k <= e <= sents@.len(),
            s == sents.deep_view(),
            out@ == join_sents(s, j as int, k as int),
        decreases e - k,
    {
        proof {
            lemma_chars_deep(sents@[k as int]);
        }
        if k > j {
            out.push(' ');
        }
        let ghost out_mid = out@;
        let sent = &sents[k];
        let mut t: usize = 0;
        while t < sent.len()
            invariant
                t <= sent@.len(),
                out@ == out_mid + sent@.take(t as int),
            decreases sent@.len() - t,
        {
            out.push(sent[t]);
            t = t + 1;
            proof {
                assert(out@ =~= out_mid + sent@.take(t as int));
            }
        }
        proof {
            assert(sent@.take(sent@.len() as int) =~= sent@);
            if k == j {
                assert(join_sents(s, j as int, j as int) + sent@ =~= sent@);
                assert(out@ =~= join_sents(s, j as int, (k + 1) as int));
            } else {
                assert(out@ =~= join_sents(s, j as int, k as int) + seq![' '] + s[k as int]);
            }
        }
        k = k + 1;
    }
    out
}

/// Pack sentences into fragments.
pub fn chunk_sentences(sents: &Vec<Vec<char>>, cs: usize, ov: usize) -> (out: Vec<Vec<char>>)
    requires
        forall|t: int| 0 <= t < sents.deep_view().len() ==> #[trigger] sents.deep_view()[t].len()
            > 0,
    ensures
        out.deep_view() == chunks_spec(sents.deep_view(), cs as int, ov as int),
{
    let ghost s = sents.deep_view();
    let mut chunks: Vec<Vec<char>> = Vec::new();
    let ghost mut runs: Seq<(int, int, int)> = Seq::empty();
    let mut current: Vec<char> = Vec::new();
    let ghost mut cur: Option<(int, int)> = None;
    let mut i: usize = 0;
    while i < sents.len()
        invariant
            i <= sents@.len(),
            s == sents.deep_view(),
            forall|t: int| 0 <= t < s.len() ==> #[trigger] s[t].len() > 0,
            pack_from(s, cs as int, ov as int, i as int, runs, cur) == pack_runs(
                s,
                cs as int,
                ov as int,
            ),
            chunks.deep_view() == runs.map_values(|r: (int, int, int)| run_text(s, r)),
            match cur {
                None => current@.len() == 0,
                Some(jb) => current@ == join_sents(s, jb.0, i as int) && 0 <= jb.0 <= jb.1
                    < i as int && current@.len() > 0,
            },
        decreases sents@.len() - i,
    {
        let ghost runs_entry = runs;
        let ghost cur_entry = cur;
        proof {
            lemma_chars_deep(sents@[i as int]);
        }
        let slen = sents[i].len();
        if current.len() > 0 && over_limit(current.len(), slen, cs) {
            let ghost jb = cur->Some_0;
            // finalize the current fragment
            let t = trim_chars(&current);
            let ghost runs2 = if seq_trim(join_sents(s, jb.0, i as int)).len() > 10 {
                runs.push((jb.0, jb.1, i as int))
            } else {
                runs
            };
            if t.len() > 10 {
                let ghost chunks_pre = chunks;
                let ghost tv = t@;
                chunks.push(t);
                proof {
                    lemma_deep_push(chunks_pre, chunks, chunks@.last());
                    assert(chunks.deep_view() =~= runs2.map_values(
                        |r: (int, int, int)| run_text(s, r),
                    ));
                }
            }
            proof {
                runs = runs2;
            }
            // seed the next fragment with the overlap
            if chunks.len() == 0 || ov == 0 {
                current = Vec::new();
                proof {
                    cur = Some(((i as int), (i as int)));
                }
            } else {
                let ob = overlap_begin(sents, i, ov);
                current = join_range(sents, ob, i);
                proof {
                    cur = Some(((ob as int), (i as int)));
                }
            }
        }
        // append sentence i
        let ghost cur_before = cur;
        if current.len() > 0 {
            current.push(' ');
        }
        let ghost cur_mid = current@;
        let sent = &sents[i];
        let mut t2: usize = 0;
        while t2 < sent.len()
            invariant
                t2 <= sent@.len(),
                current@ == cur_mid + sent@.take(t2 as int),
            decreases sent@.len() - t2,
        {
            current.push(sent[t2]);
            t2 = t2 + 1;
            proof {
                assert(current@ =~= cur_mid + sent@.take(t2 as int));
            }
        }
        proof {
            assert(sent@.take(sent@.len() as int) =~= sent@);
            assert(sent@ == s[i as int]);
            match cur_before {
                None => {
                    assert(cur_mid =~= Seq::<char>::empty());
                    assert(current@ =~= s[i as int]);
                    assert(current@ == join_sents(s, i as int, i + 1));
                    cur = Some(((i as int), (i as int)));
                },
                Some(jb) => {
                    if jb.0 < i as int {
                        assert(current@ =~= join_sents(s, jb.0, i as int) + seq![' '] + s[
                            i as int]);
                        assert(current@ == join_sents(s, jb.0, i + 1));
                    } else {
                        assert(join_sents(s, jb.0, i as int).len() == 0);
                        assert(cur_mid =~= Seq::<char>::empty());
                        assert(current@ =~= s[i as int]);
                        assert(current@ == join_sents(s, jb.0, i + 1));
                    }
                    cur = Some((jb.0, jb.1));
                },
            }
            assert(current@.len() > 0) by {
                assert(s[i as int].len() > 0);
                if cur->Some_0.0 < i as int {
                    lemma_join_lower(s, cur->Some_0.0, i + 1);
                }
            }
            assert(pack_from(s, cs as int, ov as int, i as int, runs_entry, cur_entry)
                == pack_from(s, cs as int, ov as int, i + 1, runs, cur));
        }
        i = i + 1;
    }
    // emit the final fragment
    proof {
        assert(i as int == s.len());
    }
    if current.len() > 0 {
        let ghost jb = cur->Some_0;
        let t = trim_chars(&current);
        if t.len() > 10 {
            let ghost chunks_pre = chunks;
            chunks.push(t);
            proof {
                runs = runs.push((jb.0, jb.1, s.len() as int));
                lemma_deep_push(chunks_pre, chunks, chunks@.last());
                assert(chunks.deep_view() =~= runs.map_values(
                    |r: (int, int, int)| run_text(s, r),
                ));
            }
        }
    }
    proof {
        assert(chunks.deep_view() =~= chunks_spec(s, cs as int, ov as int));
    }
    chunks
}

} // verus!
