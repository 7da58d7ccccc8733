//! Levenshtein edit distance between two byte sequences, and the run-length
//! encoded alignment ("cigar") read back from the dynamic-programming matrix.

use vstd::prelude::*;
use vstd::string::StringSliceAdditionalSpecFns;

verus! {

/// The distance between two sequences and the alignment string of one
/// optimal edit script between them.
#[derive(Debug)]
pub struct AlignResult {
    pub edit_dist: u32,
    pub cigar: String,
}

impl PartialEq for AlignResult {
    fn eq(&self, other: &AlignResult) -> (r: bool) {
        self.edit_dist == other.edit_dist && self.cigar == other.cigar
    }
}

impl vstd::std_specs::cmp::PartialEqSpecImpl for AlignResult {
    open spec fn obeys_eq_spec() -> bool {
        true
    }

    open spec fn eq_spec(&self, other: &AlignResult) -> bool {
        self.edit_dist == other.edit_dist && self.cigar@ == other.cigar@
    }
}

/// `1` when two symbols differ, `0` when they are equal.
pub open spec fn mismatch(x: u8, y: u8) -> nat {
    if x == y { 0 } else { 1 }
}

/// The least of three costs; on ties the earlier argument is the one taken.
pub open spec fn min3(d: nat, u: nat, l: nat) -> nat {
    if d <= u && d <= l { d } else if u <= l { u } else { l }
}

/// Unit-cost edit distance between `a` and `b`, by the usual recurrence on
/// the last symbol of each sequence.
pub open spec fn lev(a: Seq<u8>, b: Seq<u8>) -> nat
    decreases a.len() + b.len(),
{
    if a.len() == 0 {
        b.len()
    } else if b.len() == 0 {
        a.len()
    } else {
        min3(
            lev(a.drop_last(), b.drop_last()) + mismatch(a.last(), b.last()),
            lev(a.drop_last(), b) + 1,
            lev(a, b.drop_last()) + 1,
        )
    }
}

/// The distance between the first `i` symbols of `a` and the first `j` of `b`.
pub open spec fn lev_prefix(a: Seq<u8>, b: Seq<u8>, i: int, j: int) -> nat {
    lev(a.take(i), b.take(j))
}

/// The cost table of `a` and `b`, as a function of a cell's coordinates.
pub open spec fn lev_table(a: Seq<u8>, b: Seq<u8>) -> spec_fn(int, int) -> int {
    |i: int, j: int| lev_prefix(a, b, i, j) as int
}

/// A stored matrix, as a function of a cell's coordinates.
pub open spec fn matrix_table(m: Seq<Vec<u32>>) -> spec_fn(int, int) -> int {
    |i: int, j: int| m[i]@[j] as int
}

/// A matrix with at least one row, every row of the same non-zero length.
pub open spec fn is_rect(m: Seq<Vec<u32>>) -> bool {
    &&& m.len() >= 1
    &&& m[0]@.len() >= 1
    &&& forall|r: int| 0 <= r < m.len() ==> #[trigger] m[r]@.len() == m[0]@.len()
}

/// The operations read back from cell `(i, j)` of table `t` to the origin,
/// in order from the start of the sequences: `'M'` steps diagonally, `'I'`
/// steps up from an inner cell or left along the top row, `'D'` steps left
/// from an inner cell or up along the first column. Among the neighbours of an
/// inner cell the least value wins, ties going to the diagonal, then up.
pub open spec fn trace(t: spec_fn(int, int) -> int, i: nat, j: nat) -> Seq<char>
    decreases i + j,
{
    if i == 0 && j == 0 {
        Seq::empty()
    } else if i == 0 {
        trace(t, 0, (j - 1) as nat).push('I')
    } else if j == 0 {
        trace(t, (i - 1) as nat, 0).push('D')
    } else {
        let d = t(i - 1, j - 1);
        let u = t(i - 1, j as int);
        let l = t(i as int, j - 1);
        if d <= u && d <= l {
            trace(t, (i - 1) as nat, (j - 1) as nat).push('M')
        } else if u <= l {
            trace(t, (i - 1) as nat, j).push('I')
        } else {
            trace(t, i, (j - 1) as nat).push('D')
        }
    }
}

/// Runs of equal operations: each entry is an operation and how many times
/// it repeats.
pub open spec fn rle(ops: Seq<char>) -> Seq<(char, nat)>
    decreases ops.len(),
{
    if ops.len() == 0 {
        Seq::empty()
    } else {
        let r = rle(ops.drop_last());
        if r.len() > 0 && r.last().0 == ops.last() {
            r.update(r.len() - 1, (ops.last(), r.last().1 + 1))
        } else {
            r.push((ops.last(), 1))
        }
    }
}

/// The decimal digit character of `d`, for `d < 10`.
pub open spec fn digit_char(d: nat) -> char {
    if d == 0 { '0' }
    else if d == 1 { '1' }
    else if d == 2 { '2' }
    else if d == 3 { '3' }
    else if d == 4 { '4' }
    else if d == 5 { '5' }
    else if d == 6 { '6' }
    else if d == 7 { '7' }
    else if d == 8 { '8' }
    else { '9' }
}

/// Decimal digits of `n`, without leading zeros.
pub open spec fn decimal(n: nat) -> Seq<char>
    decreases n,
{
    if n < 10 {
        seq![digit_char(n)]
    } else {
        decimal(n / 10).push(digit_char(n % 10))
    }
}

/// Each run written as its count in decimal followed by its operation letter.
pub open spec fn render(runs: Seq<(char, nat)>) -> Seq<char>
    decreases runs.len(),
{
    if runs.len() == 0 {
        Seq::empty()
    } else {
        render(runs.drop_last()) + decimal(runs.last().1).push(runs.last().0)
    }
}

/// The alignment string of an operation sequence.
pub open spec fn cigar_of(ops: Seq<char>) -> Seq<char> {
    render(rle(ops))
}

/// The distance never exceeds the longer length, so a `u32` cell holds it
/// whenever both lengths fit.
pub proof fn lemma_lev_bound(a: Seq<u8>, b: Seq<u8>)
    ensures
        lev(a, b) <= if a.len() >= b.len() { a.len() } else { b.len() },
    decreases a.len() + b.len(),
{
    if a.len() > 0 && b.len() > 0 {
        lemma_lev_bound(a.drop_last(), b.drop_last());
    }
}

/// Fills the cost matrix of `a` and `b`: cell `(i, j)` holds the distance
/// between their prefixes of lengths `i` and `j`.
fn build_matrix(a: &[u8], b: &[u8]) -> (mat: Vec<Vec<u32>>)
    requires
        a@.len() < u32::MAX,
        b@.len() < u32::MAX,
    ensures
        mat@.len() == a@.len() + 1,
        forall|i: int| 0 <= i <= a@.len() ==> #[trigger] mat@[i]@.len() == b@.len() + 1,
        forall|i: int, j: int|
            0 <= i <= a@.len() && 0 <= j <= b@.len() ==> #[trigger] mat@[i]@[j] as int
                == lev_prefix(a@, b@, i, j),
{
    let n = a.len();
    let m = b.len();
    let mut mat: Vec<Vec<u32>> = Vec::new();
    let mut first: Vec<u32> = Vec::new();
    let mut j: usize = 0;
    while j <= m
        invariant
            m == b@.len(),
            m < u32::MAX,
            j <= m + 1,
            first@.len() == j,
            forall|c: int| 0 <= c < j ==> #[trigger] first@[c] as int == lev_prefix(a@, b@, 0, c),
        decreases m + 1 - j,
    {
        assert(a@.take(0).len() == 0);
        first.push(j as u32);
        j += 1;
    }
    mat.push(first);
    let mut i: usize = 1;
    while i <= n
        invariant
            n == a@.len(),
            m == b@.len(),
            n < u32::MAX,
            m < u32::MAX,
            1 <= i <= n + 1,
            mat@.len() == i,
            forall|r: int| 0 <= r < i ==> #[trigger] mat@[r]@.len() == m + 1,
            forall|r: int, c: int|
                0 <= r < i && 0 <= c <= m ==> #[trigger] mat@[r]@[c] as int
                    == lev_prefix(a@, b@, r, c),
        decreases n + 1 - i,
    {
        let mut row: Vec<u32> = Vec::new();
        assert(b@.take(0).len() == 0);
        assert(a@.take(i as int).len() == i);
        row.push(i as u32);
        let mut j: usize = 1;
        while j <= m
            invariant
                n == a@.len(),
                m == b@.len(),
                n < u32::MAX,
                m < u32::MAX,
                1 <= i <= n,
                1 <= j <= m + 1,
                mat@.len() == i,
                forall|r: int| 0 <= r < i ==> #[trigger] mat@[r]@.len() == m + 1,
                forall|r: int, c: int|
                    0 <= r < i && 0 <= c <= m ==> #[trigger] mat@[r]@[c] as int
                        == lev_prefix(a@, b@, r, c),
                row@.len() == j,
                forall|c: int| 0 <= c < j ==> #[trigger] row@[c] as int == lev_prefix(
                    a@,
                    b@,
                    i as int,
                    c,
                ),
            decreases m + 1 - j,
        {
            let ghost ai = a@.take(i as int);
            let ghost bj = b@.take(j as int);
            assert(ai.drop_last() =~= a@.take(i - 1));
            assert(bj.drop_last() =~= b@.take(j - 1));
            assert(ai.last() == a@[i - 1]);
            assert(bj.last() == b@[j - 1]);
            proof {
                lemma_lev_bound(a@.take(i - 1), b@.take(j - 1));
                lemma_lev_bound(a@.take(i - 1), bj);
                lemma_lev_bound(ai, b@.take(j - 1));
            }
            let delta: u32 = if a[i - 1] != b[j - 1] { 1 } else { 0 };
            let d = mat[i - 1][j - 1] + delta;
            let u = mat[i - 1][j] + 1;
            let l = row[j - 1] + 1;
            let best = if d <= u && d <= l { d } else if u <= l { u } else { l };
            row.push(best);
            j += 1;
        }
        mat.push(row);
        i += 1;
    }
    mat
}

/// The symbols of `r` from last to first.
pub open spec fn reversed(r: Seq<char>) -> Seq<char> {
    Seq::new(r.len(), |k: int| r[r.len() - 1 - k])
}

/// One of the three operation letters.
pub open spec fn is_op(c: char) -> bool {
    c == 'M' || c == 'I' || c == 'D'
}

/// Two tables that agree on every cell up to `(i, j)` give the same trace.
pub proof fn lemma_trace_agree(t1: spec_fn(int, int) -> int, t2: spec_fn(int, int) -> int, i: nat, j: nat)
    requires
        forall|x: int, y: int| 0 <= x <= i && 0 <= y <= j ==> #[trigger] t1(x, y) == t2(x, y),
    ensures
        trace(t1, i, j) == trace(t2, i, j),
    decreases i + j,
{
    if i == 0 && j == 0 {
    } else if i == 0 {
        lemma_trace_agree(t1, t2, 0, (j - 1) as nat);
    } else if j == 0 {
        lemma_trace_agree(t1, t2, (i - 1) as nat, 0);
    } else {
        lemma_trace_agree(t1, t2, (i - 1) as nat, (j - 1) as nat);
        lemma_trace_agree(t1, t2, (i - 1) as nat, j);
        lemma_trace_agree(t1, t2, i, (j - 1) as nat);
    }
}

fn digit_str(d: usize) -> (s: &'static str)
    requires
        d < 10,
    ensures
        s@ == seq![digit_char(d as nat)],
{
    proof {
        reveal_strlit("0");
        reveal_strlit("1");
        reveal_strlit("2");
        reveal_strlit("3");
        reveal_strlit("4");
        reveal_strlit("5");
        reveal_strlit("6");
        reveal_strlit("7");
        reveal_strlit("8");
        reveal_strlit("9");
    }
    let s = if d == 0 {
        "0"
    } else if d == 1 {
        "1"
    } else if d == 2 {
        "2"
    } else if d == 3 {
        "3"
    } else if d == 4 {
        "4"
    } else if d == 5 {
        "5"
    } else if d == 6 {
        "6"
    } else if d == 7 {
        "7"
    } else if d == 8 {
        "8"
    } else {
        "9"
    };
    assert(s@ =~= seq![digit_char(d as nat)]);
    s
}

fn letter_str(c: char) -> (s: &'static str)
    requires
        is_op(c),
    ensures
        s@ == seq![c],
{
    proof {
        reveal_strlit("M");
        reveal_strlit("I");
        reveal_strlit("D");
    }
    let s = if c == 'M' {
        "M"
    } else if c == 'I' {
        "I"
    } else {
        "D"
    };
    assert(s@ =~= seq![c]);
    s
}

/// `n` written in decimal.
fn decimal_string(n: usize) -> (s: String)
    ensures
        s@ == decimal(n as nat),
{
    let mut q: usize = n;
    let mut tail = String::new();
    while q >= 10
        invariant
            decimal(n as nat) == decimal(q as nat) + tail@,
        decreases q,
    {
        let d: usize = q % 10;
        let ghost old_tail = tail@;
        assert(decimal(q as nat) == decimal((q / 10) as nat).push(digit_char(d as nat)));
        tail = String::from_str(digit_str(d)).concat(tail.as_str());
        assert(decimal((q / 10) as nat).push(digit_char(d as nat)) + old_tail =~= decimal(
            (q / 10) as nat,
        ) + tail@);
        q = q / 10;
    }
    String::from_str(digit_str(q)).concat(tail.as_str())
}

/// Appends one run: its count in decimal, then its letter.
fn append_run(s: &mut String, c: char, count: usize)
    requires
        is_op(c),
    ensures
        final(s)@ == old(s)@ + decimal(count as nat).push(c),
{
    let digits = decimal_string(count);
    s.append(digits.as_str());
    s.append(letter_str(c));
    assert(final(s)@ =~= old(s)@ + decimal(count as nat).push(c));
}

/// Walks `dp_mat` back from its bottom-right cell to its top-left cell and
/// returns the run-length encoding of the operations met on the way.
pub fn traceback(dp_mat: &Vec<Vec<u32>>) -> (cigar: String)
    requires
        is_rect(dp_mat@),
    ensures
        cigar@ == cigar_of(
            trace(
                matrix_table(dp_mat@),
                (dp_mat@.len() - 1) as nat,
                (dp_mat@[0]@.len() - 1) as nat,
            ),
        ),
{
    let n = dp_mat.len() - 1;
    let m = dp_mat[0].len() - 1;
    let ghost t = matrix_table(dp_mat@);
    let mut i: usize = n;
    let mut j: usize = m;
    let mut rev: Vec<char> = Vec::new();
    while !(i == 0 && j == 0)
        invariant
            is_rect(dp_mat@),
            n == dp_mat@.len() - 1,
            m == dp_mat@[0]@.len() - 1,
            t == matrix_table(dp_mat@),
            i <= n,
            j <= m,
            trace(t, n as nat, m as nat) == trace(t, i as nat, j as nat) + reversed(rev@),
            forall|k: int| 0 <= k < rev@.len() ==> is_op(#[trigger] rev@[k]),
        decreases i + j,
    {
        let ghost old_rev = rev@;
        let ghost oi = i;
        let ghost oj = j;
        if i == 0 {
            rev.push('I');
            j -= 1;
        } else if j == 0 {
            rev.push('D');
            i -= 1;
        } else {
            assert(dp_mat@[i as int]@.len() == m + 1);
            assert(dp_mat@[i - 1]@.len() == m + 1);
            let d = dp_mat[i - 1][j - 1];
            let u = dp_mat[i - 1][j];
            let l = dp_mat[i][j - 1];
            if d <= u && d <= l {
                rev.push('M');
                i -= 1;
                j -= 1;
            } else if u <= l {
                rev.push('I');
                i -= 1;
            } else {
                rev.push('D');
                j -= 1;
            }
        }
        assert(trace(t, oi as nat, oj as nat) == trace(t, i as nat, j as nat).push(rev@.last()));
        assert(reversed(rev@) =~= seq![rev@.last()] + reversed(old_rev));
        assert(trace(t, i as nat, j as nat).push(rev@.last()) + reversed(old_rev) =~= trace(
            t,
            i as nat,
            j as nat,
        ) + reversed(rev@));
    }
    let ghost ops = reversed(rev@);
    assert(trace(t, 0, 0) =~= Seq::<char>::empty());
    assert(trace(t, n as nat, m as nat) =~= ops);
    let len = rev.len();
    if len == 0 {
        assert(ops.len() == 0);
        return String::new();
    }
    let mut cigar = String::new();
    let mut prev: char = rev[len - 1];
    let mut count: usize = 1;
    assert(ops.take(1).drop_last() =~= Seq::<char>::empty());
    assert(rle(ops.take(1).drop_last()) =~= Seq::<(char, nat)>::empty());
    assert(ops.take(1).last() == prev);
    assert(rle(ops.take(1)) =~= seq![(prev, 1nat)]);
    let mut k: usize = 1;
    while k < len
        invariant
            len == rev@.len(),
            ops == reversed(rev@),
            1 <= k <= len,
            1 <= count <= k,
            forall|x: int| 0 <= x < rev@.len() ==> is_op(#[trigger] rev@[x]),
            is_op(prev),
            rle(ops.take(k as int)).len() >= 1,
            rle(ops.take(k as int)).last() == (prev, count as nat),
            cigar@ == render(rle(ops.take(k as int)).drop_last()),
        decreases len - k,
    {
        let c = rev[len - 1 - k];
        let ghost r = rle(ops.take(k as int));
        assert(ops.take(k + 1).drop_last() =~= ops.take(k as int));
        assert(ops.take(k + 1).last() == c);
        if c == prev {
            count += 1;
            assert(rle(ops.take(k + 1)).drop_last() =~= r.drop_last());
        } else {
            append_run(&mut cigar, prev, count);
            assert(rle(ops.take(k + 1)).drop_last() =~= r);
            prev = c;
            count = 1;
        }
        k += 1;
    }
    append_run(&mut cigar, prev, count);
    assert(ops.take(len as int) =~= ops);
    cigar
}

/// The edit distance between the bytes of `s1` and `s2`, with the alignment
/// string read back from their cost matrix.
pub fn edit_dist(s1: &str, s2: &str) -> (r: Option<AlignResult>)
    requires
        s1.len() < u32::MAX as usize,
        s2.len() < u32::MAX as usize,
    ensures
        r is Some,
        r->Some_0.edit_dist == lev(s1.spec_bytes(), s2.spec_bytes()),
        r->Some_0.cigar@ == cigar_of(
            trace(
                lev_table(s1.spec_bytes(), s2.spec_bytes()),
                s1.spec_bytes().len(),
                s2.spec_bytes().len(),
            ),
        ),
{
    let a = s1.as_bytes();
    let b = s2.as_bytes();
    let n = a.len();
    let m = b.len();
    let mat = build_matrix(a, b);
    let dist = mat[n][m];
    assert(a@.take(n as int) =~= a@);
    assert(b@.take(m as int) =~= b@);
    assert(mat@[0]@.len() == m + 1);
    let cigar = traceback(&mat);
    proof {
        lemma_trace_agree(matrix_table(mat@), lev_table(a@, b@), n as nat, m as nat);
    }
    Some(AlignResult { edit_dist: dist, cigar })
}

} // verus!
