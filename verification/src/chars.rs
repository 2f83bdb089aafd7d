//! Character classification and small text utilities shared by the
//! normalizer, the sentence splitter and the extractors.
//!
//! Text is handled as `Vec<char>` internally so that every length in a
//! contract counts characters, not bytes.

use vstd::prelude::*;

verus! {

/// A Unicode whitespace character (the White_Space property).
pub open spec fn is_ws_char(c: char) -> bool {
    let u = c as u32;
    u == 0x20 || (0x9 <= u && u <= 0xD) || u == 0x85 || u == 0xA0 || u == 0x1680
        || (0x2000 <= u && u <= 0x200A) || u == 0x2028 || u == 0x2029 || u == 0x202F
        || u == 0x205F || u == 0x3000
}

/// A control character (Unicode category Cc).
pub open spec fn is_ctrl_char(c: char) -> bool {
    let u = c as u32;
    u < 0x20 || u == 0x7F || (0x80 <= u && u <= 0x9F)
}

/// A character the normalizer keeps: anything except a non-whitespace
/// control character.
pub open spec fn keeps_char(c: char) -> bool {
    is_ws_char(c) || !is_ctrl_char(c)
}

pub fn ws_char(c: char) -> (r: bool)
    ensures
        r == is_ws_char(c),
{
    let u = c as u32;
    u == 0x20 || (0x9 <= u && u <= 0xD) || u == 0x85 || u == 0xA0 || u == 0x1680
        || (0x2000 <= u && u <= 0x200A) || u == 0x2028 || u == 0x2029 || u == 0x202F
        || u == 0x205F || u == 0x3000
}

pub fn ctrl_char(c: char) -> (r: bool)
    ensures
        r == is_ctrl_char(c),
{
    let u = c as u32;
    u < 0x20 || u == 0x7F || (0x80 <= u && u <= 0x9F)
}

/// Whether `c` counts as uppercase for sentence-boundary detection.
/// The result depends on the character alone.
pub uninterp spec fn is_upper_char(c: char) -> bool;

/// Relies on std's char::is_uppercase: the Unicode uppercase classification
/// of a single character.
#[verifier::external_body]
pub fn upper_char(c: char) -> (r: bool)
    ensures
        r == is_upper_char(c),
{
    c.is_uppercase()
}

/// Relies on std's String::push: appends one character to the string.
#[verifier::external_body]
pub fn push_char(s: &mut String, c: char)
    ensures
        final(s)@ == old(s)@.push(c),
{
    s.push(c);
}

/// The characters of a string slice, in order.
pub fn chars_of(s: &str) -> (v: Vec<char>)
    ensures
        v@ == s@,
{
    let n: usize = s.unicode_len();
    let mut v: Vec<char> = Vec::new();
    let mut i: usize = 0;
    while i < n
        invariant
            n == s@.len(),
            i <= n,
            v@ == s@.take(i as int),
        decreases n - i,
    {
        v.push(s.get_char(i));
        i = i + 1;
        proof {
            assert(v@ =~= s@.take(i as int));
        }
    }
    proof {
        assert(v@ =~= s@);
    }
    v
}

/// A string holding exactly the given characters.
pub fn string_of(v: &Vec<char>) -> (s: String)
    ensures
        s@ == v@,
{
    let mut s = String::new();
    let mut i: usize = 0;
    while i < v.len()
        invariant
            i <= v@.len(),
            s@ == v@.take(i as int),
        decreases v@.len() - i,
    {
        push_char(&mut s, v[i]);
        i = i + 1;
        proof {
            assert(s@ =~= v@.take(i as int));
        }
    }
    proof {
        assert(s@ =~= v@);
    }
    s
}

/// The input without leading whitespace.
pub open spec fn seq_trim_front(s: Seq<char>) -> Seq<char>
    decreases s.len(),
{
    if s.len() > 0 && is_ws_char(s.first()) {
        seq_trim_front(s.drop_first())
    } else {
        s
    }
}

/// The input without trailing whitespace.
pub open spec fn seq_trim_back(s: Seq<char>) -> Seq<char>
    decreases s.len(),
{
    if s.len() > 0 && is_ws_char(s.last()) {
        seq_trim_back(s.drop_last())
    } else {
        s
    }
}

/// The input without leading or trailing whitespace.
pub open spec fn seq_trim(s: Seq<char>) -> Seq<char> {
    seq_trim_back(seq_trim_front(s))
}

proof fn lemma_trim_front_skip(s: Seq<char>, k: int)
    requires
        0 <= k <= s.len(),
        forall|j: int| 0 <= j < k ==> is_ws_char(#[trigger] s[j]),
        k == s.len() || !is_ws_char(s[k]),
    ensures
        seq_trim_front(s) == s.skip(k),
    decreases k,
{
    if k == 0 {
        assert(s.skip(0) =~= s);
    } else {
        assert(is_ws_char(s[0]));
        let t = s.drop_first();
        assert(forall|j: int| 0 <= j < k - 1 ==> is_ws_char(#[trigger] t[j])) by {
            assert(forall|j: int| 0 <= j < t.len() ==> #[trigger] t[j] == s[j + 1]);
        }
        if k - 1 < t.len() {
            assert(!is_ws_char(t[k - 1])) by {
                assert(t[k - 1] == s[k]);
            }
        }
        lemma_trim_front_skip(t, k - 1);
        assert(t.skip(k - 1) =~= s.skip(k));
    }
}

proof fn lemma_trim_back_take(s: Seq<char>, k: int)
    requires
        0 <= k <= s.len(),
        forall|j: int| k <= j < s.len() ==> is_ws_char(#[trigger] s[j]),
        k == 0 || !is_ws_char(s[k - 1]),
    ensures
        seq_trim_back(s) == s.take(k),
    decreases s.len(),
{
    if k == s.len() {
        if s.len() > 0 {
            assert(!is_ws_char(s.last()));
        }
        assert(s.take(k) =~= s);
    } else {
        assert(is_ws_char(s.last())) by {
            assert(is_ws_char(s[s.len() - 1]));
        }
        let t = s.drop_last();
        assert(forall|j: int| k <= j < t.len() ==> is_ws_char(#[trigger] t[j])) by {
            assert(forall|j: int| 0 <= j < t.len() ==> #[trigger] t[j] == s[j]);
        }
        if k > 0 {
            assert(!is_ws_char(t[k - 1])) by {
                assert(t[k - 1] == s[k - 1]);
            }
        }
        lemma_trim_back_take(t, k);
        assert(t.take(k) =~= s.take(k));
    }
}

/// Shape of a trim: no whitespace at either end, and a trimmed text is
/// left unchanged by trimming again.
pub proof fn lemma_trim_shape(s: Seq<char>)
    ensures
        seq_trim(s).len() <= s.len(),
        seq_trim(s).len() > 0 ==> !is_ws_char(seq_trim(s).first()) && !is_ws_char(
            seq_trim(s).last(),
        ),
        s.len() > 0 && !is_ws_char(s.first()) && !is_ws_char(s.last()) ==> seq_trim(s) == s,
    decreases s.len(),
{
    if s.len() > 0 {
        lemma_trim_shape(s.drop_first());
        lemma_trim_shape(s.drop_last());
        lemma_trim_front_shape(s);
        let tf = seq_trim_front(s);
        lemma_trim_back_shape(tf);
    }
}

proof fn lemma_trim_front_shape(s: Seq<char>)
    ensures
        seq_trim_front(s).len() <= s.len(),
        seq_trim_front(s).len() > 0 ==> !is_ws_char(seq_trim_front(s).first()),
        seq_trim_front(s).len() > 0 ==> seq_trim_front(s).last() == s.last() && s.len() > 0,
    decreases s.len(),
{
    if s.len() > 0 && is_ws_char(s.first()) {
        lemma_trim_front_shape(s.drop_first());
        if seq_trim_front(s).len() > 0 {
            assert(s.drop_first().last() == s.last());
        }
    }
}

proof fn lemma_trim_back_shape(s: Seq<char>)
    ensures
        seq_trim_back(s).len() <= s.len(),
        seq_trim_back(s).len() > 0 ==> !is_ws_char(seq_trim_back(s).last()),
        seq_trim_back(s).len() > 0 ==> seq_trim_back(s).first() == s.first() && s.len() > 0,
    decreases s.len(),
{
    if s.len() > 0 && is_ws_char(s.last()) {
        lemma_trim_back_shape(s.drop_last());
        if seq_trim_back(s).len() > 0 {
            assert(s.drop_last().first() == s.first());
        }
    }
}

/// Trimming is idempotent.
pub proof fn lemma_trim_idem(s: Seq<char>)
    ensures
        seq_trim(seq_trim(s)) == seq_trim(s),
{
    lemma_trim_shape(s);
    if seq_trim(s).len() > 0 {
        lemma_trim_shape(seq_trim(s));
    }
}

/// Remove leading and trailing whitespace.
pub fn trim_chars(v: &Vec<char>) -> (out: Vec<char>)
    ensures
        out@ == seq_trim(v@),
{
    let n: usize = v.len();
    let mut lo: usize = 0;
    while lo < n && ws_char(v[lo])
        invariant
            n == v@.len(),
            lo <= n,
            forall|j: int| 0 <= j < lo ==> is_ws_char(#[trigger] v@[j]),
        decreases n - lo,
    {
        lo = lo + 1;
    }
    proof {
        lemma_trim_front_skip(v@, lo as int);
    }
    let mut hi: usize = n;
    while hi > lo && ws_char(v[hi - 1])
        invariant
            n == v@.len(),
            lo <= hi <= n,
            forall|j: int| hi <= j < n ==> is_ws_char(#[trigger] v@[j]),
        decreases hi,
    {
        hi = hi - 1;
    }
    let ghost tf = seq_trim_front(v@);
    proof {
        assert(tf == v@.skip(lo as int));
        if hi == lo {
            // everything after the leading whitespace is whitespace
            assert(forall|j: int| 0 <= j < tf.len() ==> is_ws_char(#[trigger] tf[j])) by {
                assert(forall|j: int| 0 <= j < tf.len() ==> #[trigger] tf[j] == v@[j + lo]);
            }
            lemma_trim_back_take(tf, 0);
        } else {
            assert(!is_ws_char(v@[hi - 1]));
            assert(forall|j: int| hi - lo <= j < tf.len() ==> is_ws_char(#[trigger] tf[j])) by {
                assert(forall|j: int| 0 <= j < tf.len() ==> #[trigger] tf[j] == v@[j + lo]);
            }
            assert(!is_ws_char(tf[hi - lo - 1])) by {
                assert(tf[hi - lo - 1] == v@[hi - 1]);
            }
            lemma_trim_back_take(tf, hi - lo);
        }
        assert(tf.take(hi - lo) =~= v@.subrange(lo as int, hi as int));
    }
    let mut out: Vec<char> = Vec::new();
    let mut j: usize = lo;
    while j < hi
        invariant
            lo <= j <= hi <= v@.len(),
            out@ == v@.subrange(lo as int, j as int),
        decreases hi - j,
    {
        out.push(v[j]);
        j = j + 1;
        proof {
            assert(out@ =~= v@.subrange(lo as int, j as int));
        }
    }
    proof {
        assert(out@ =~= v@.subrange(lo as int, hi as int));
    }
    out
}

/// The first `k` characters of `s`, or all of `s` if it is shorter.
pub open spec fn take_chars_spec(s: Seq<char>, k: int) -> Seq<char> {
    if k < s.len() {
        s.take(k)
    } else {
        s
    }
}

pub fn take_chars(v: &Vec<char>, k: usize) -> (out: Vec<char>)
    ensures
        out@ == take_chars_spec(v@, k as int),
{
    let mut out: Vec<char> = Vec::new();
    let n: usize = if k < v.len() {
        k
    } else {
        v.len()
    };
    let mut i: usize = 0;
    while i < n
        invariant
            n <= v@.len(),
            i <= n,
            out@ == v@.take(i as int),
        decreases n - i,
    {
        out.push(v[i]);
        i = i + 1;
        proof {
            assert(out@ =~= v@.take(i as int));
        }
    }
    proof {
        if k < v@.len() {
            assert(out@ =~= v@.take(k as int));
        } else {
            assert(out@ =~= v@);
        }
    }
    out
}

/// The deep view of a character vector is its view.
pub(crate) proof fn lemma_chars_deep(v: Vec<char>)
    ensures
        v.deep_view() == v@,
{
    assert(v.deep_view() =~= v@);
}

/// Pushing onto a vector of character vectors pushes its deep view.
pub(crate) proof fn lemma_deep_push(a: Vec<Vec<char>>, b: Vec<Vec<char>>, x: Vec<char>)
    requires
        b@ == a@.push(x),
    ensures
        b.deep_view() == a.deep_view().push(x@),
{
    lemma_chars_deep(x);
    assert forall|i: int| 0 <= i < b.deep_view().len() implies b.deep_view()[i]
        == a.deep_view().push(x@)[i] by {
        if i < a@.len() {
            assert(b@[i] == a@[i]);
        } else {
            assert(b@[i] == x);
        }
    }
    assert(b.deep_view() =~= a.deep_view().push(x@));
}

/// Pushing onto a vector of strings pushes its deep view.
pub(crate) proof fn lemma_deep_push_str(a: Vec<String>, b: Vec<String>, x: String)
    requires
        b@ == a@.push(x),
    ensures
        b.deep_view() == a.deep_view().push(x@),
{
    assert forall|i: int| 0 <= i < b.deep_view().len() implies b.deep_view()[i]
        == a.deep_view().push(x@)[i] by {
        if i < a@.len() {
            assert(b@[i] == a@[i]);
        } else {
            assert(b@[i] == x);
        }
    }
    assert(b.deep_view() =~= a.deep_view().push(x@));
}

} // verus!
