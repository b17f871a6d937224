//! Parsing of the plain delimited input files.
//!
//! Every input is text without a header row: lines separated by a line
//! feed (a trailing carriage return is tolerated), fields separated by a
//! comma, whitespace around a field trimmed.  Blank lines carry no record.
//! Every field read must be a non-empty string of decimal digits whose
//! value fits an unsigned 64-bit integer; anything else aborts the whole
//! load with a parse error and no partial result.

use vstd::prelude::*;

use crate::errors::DataError;

verus! {

/// Whitespace trimmed around a field: space and horizontal tab.
pub open spec fn is_ws(b: u8) -> bool {
    b == 32 || b == 9
}

/// An ASCII decimal digit.
pub open spec fn is_digit(b: u8) -> bool {
    48 <= b <= 57
}

/// Every byte is a decimal digit.
pub open spec fn all_digits(s: Seq<u8>) -> bool {
    forall|j: int| 0 <= j < s.len() ==> is_digit(#[trigger] s[j])
}

/// The number a digit string denotes in base 10.
pub open spec fn dec_val(s: Seq<u8>) -> int
    decreases s.len(),
{
    if s.len() == 0 {
        0
    } else {
        dec_val(s.drop_last()) * 10 + (s.last() - 48)
    }
}

/// A digit string denotes something non-negative.
pub proof fn lemma_dec_val_nonneg(s: Seq<u8>)
    requires
        all_digits(s),
    ensures
        dec_val(s) >= 0,
    decreases s.len(),
{
    if s.len() > 0 {
        lemma_dec_val_nonneg(s.drop_last());
    }
}

/// Dropping trailing digits cannot increase the denoted value.
pub proof fn lemma_dec_val_prefix(s: Seq<u8>, i: int)
    requires
        all_digits(s),
        0 <= i <= s.len(),
    ensures
        dec_val(s.take(i)) <= dec_val(s),
    decreases s.len(),
{
    if i == s.len() {
        assert(s.take(i) =~= s);
    } else {
        assert(all_digits(s.drop_last()));
        lemma_dec_val_nonneg(s.drop_last());
        lemma_dec_val_prefix(s.drop_last(), i);
        assert(s.drop_last().take(i) =~= s.take(i));
    }
}

/// The fields (or lines) of `s`, split at every occurrence of `d`: one
/// more piece than there are delimiters, empty pieces kept.
pub open spec fn split_at_delims(s: Seq<u8>, d: u8) -> Seq<Seq<u8>>
    decreases s.len(),
{
    if s.len() == 0 {
        seq![Seq::<u8>::empty()]
    } else {
        let rest = split_at_delims(s.drop_first(), d);
        if s[0] == d {
            seq![Seq::<u8>::empty()] + rest
        } else {
            seq![seq![s[0]] + rest[0]] + rest.drop_first()
        }
    }
}

/// Splitting yields at least one piece.
pub proof fn lemma_split_nonempty(s: Seq<u8>, d: u8)
    ensures
        split_at_delims(s, d).len() >= 1,
    decreases s.len(),
{
    if s.len() > 0 {
        lemma_split_nonempty(s.drop_first(), d);
    }
}

/// A delimiter-free string is one single piece.
pub proof fn lemma_split_no_delim(s: Seq<u8>, d: u8)
    requires
        forall|j: int| 0 <= j < s.len() ==> s[j] != d,
    ensures
        split_at_delims(s, d) == seq![s],
    decreases s.len(),
{
    if s.len() == 0 {
        assert(split_at_delims(s, d) =~~= seq![s]);
    } else {
        assert(forall|j: int|
            0 <= j < s.drop_first().len() ==> #[trigger] s.drop_first()[j] != d);
        lemma_split_no_delim(s.drop_first(), d);
        assert(seq![s[0]] + s.drop_first() =~= s);
        assert(split_at_delims(s, d) =~~= seq![s]);
    }
}

/// Splitting at the first delimiter: the piece before it, then the pieces
/// of what follows it.
pub proof fn lemma_split_first_delim(s: Seq<u8>, d: u8, p: int)
    requires
        0 <= p < s.len(),
        s[p] == d,
        forall|j: int| 0 <= j < p ==> s[j] != d,
    ensures
        split_at_delims(s, d) == seq![s.take(p)] + split_at_delims(s.skip(p + 1), d),
    decreases p,
{
    if p == 0 {
        assert(s.take(0) =~= Seq::<u8>::empty());
        assert(s.drop_first() =~= s.skip(1));
        assert(split_at_delims(s, d) =~~= seq![s.take(0)] + split_at_delims(s.skip(1), d));
    } else {
        let r = s.drop_first();
        assert(forall|j: int| 0 <= j < p - 1 ==> #[trigger] r[j] != d);
        lemma_split_first_delim(r, d, p - 1);
        lemma_split_nonempty(r.skip(p), d);
        assert(seq![s[0]] + r.take(p - 1) =~= s.take(p));
        assert(r.skip(p) =~= s.skip(p + 1));
        assert((seq![r.take(p - 1)] + split_at_delims(r.skip(p), d)).drop_first()
            =~~= split_at_delims(r.skip(p), d));
        assert(split_at_delims(s, d) =~~= seq![s.take(p)] + split_at_delims(s.skip(p + 1), d));
    }
}

/// A line as a record: one trailing carriage return is not part of it.
pub open spec fn strip_cr(l: Seq<u8>) -> Seq<u8> {
    if l.len() > 0 && l.last() == 13 {
        l.drop_last()
    } else {
        l
    }
}

/// The non-blank records among a file's lines, in order.
pub open spec fn kept_rows(lines: Seq<Seq<u8>>) -> Seq<Seq<u8>>
    decreases lines.len(),
{
    if lines.len() == 0 {
        Seq::empty()
    } else {
        let rest = kept_rows(lines.drop_last());
        if strip_cr(lines.last()).len() == 0 {
            rest
        } else {
            rest.push(strip_cr(lines.last()))
        }
    }
}

/// Scanning more lines only appends records: the records of a prefix of
/// the lines are a prefix of the records of all of them.
pub proof fn lemma_kept_rows_prefix(lines: Seq<Seq<u8>>, i: int)
    requires
        0 <= i <= lines.len(),
    ensures
        kept_rows(lines.take(i)).len() <= kept_rows(lines).len(),
        forall|p: int|
            0 <= p < kept_rows(lines.take(i)).len()
                ==> #[trigger] kept_rows(lines.take(i))[p] == kept_rows(lines)[p],
    decreases lines.len() - i,
{
    if i == lines.len() {
        assert(lines.take(i) =~= lines);
    } else {
        lemma_kept_rows_prefix(lines, i + 1);
        assert(lines.take(i + 1).drop_last() =~= lines.take(i));
        assert(lines.take(i + 1).last() == lines[i]);
        let ki = kept_rows(lines.take(i));
        let ki1 = kept_rows(lines.take(i + 1));
        assert(ki1 == ki || ki1 == ki.push(strip_cr(lines[i])));
        assert forall|p: int| 0 <= p < ki.len() implies #[trigger] ki[p] == kept_rows(
            lines,
        )[p] by {
            assert(ki1[p] == ki[p]);
            assert(ki1[p] == kept_rows(lines)[p]);
        }
    }
}

/// All records of a file: its lines split at line feeds, blank lines
/// dropped.
pub open spec fn data_rows(data: Seq<u8>) -> Seq<Seq<u8>> {
    kept_rows(split_at_delims(data, 10))
}

/// The fields of one record.
pub open spec fn row_fields(row: Seq<u8>) -> Seq<Seq<u8>> {
    split_at_delims(row, 44)
}

/// A field is usable when, trimmed, it is a non-empty digit string whose
/// value fits an unsigned 64-bit integer.
pub open spec fn field_ok(f: Seq<u8>) -> bool {
    let t = trim(f);
    t.len() > 0 && all_digits(t) && dec_val(t) <= u64::MAX
}

/// The number a field denotes.
pub open spec fn field_val(f: Seq<u8>) -> int {
    dec_val(trim(f))
}

/// A record is usable for `cols` columns when it has at least that many
/// fields and each of the first `cols` is a usable number.
pub open spec fn row_ok(row: Seq<u8>, cols: int) -> bool {
    row_fields(row).len() >= cols && (forall|c: int|
        0 <= c < cols ==> field_ok(#[trigger] row_fields(row)[c]))
}

/// Column `c` of one record, as a number.
pub open spec fn row_val(row: Seq<u8>, c: int) -> int {
    field_val(row_fields(row)[c])
}

/// The field without leading whitespace.
pub open spec fn trim_front(s: Seq<u8>) -> Seq<u8>
    decreases s.len(),
{
    if s.len() > 0 && is_ws(s[0]) {
        trim_front(s.drop_first())
    } else {
        s
    }
}

/// The field without trailing whitespace.
pub open spec fn trim_back(s: Seq<u8>) -> Seq<u8>
    decreases s.len(),
{
    if s.len() > 0 && is_ws(s.last()) {
        trim_back(s.drop_last())
    } else {
        s
    }
}

/// The field without whitespace on either side.
pub open spec fn trim(s: Seq<u8>) -> Seq<u8> {
    trim_back(trim_front(s))
}

/// Trimming the front removes exactly the leading whitespace run.
pub proof fn lemma_trim_front_skip(s: Seq<u8>, i: int)
    requires
        0 <= i <= s.len(),
        forall|j: int| 0 <= j < i ==> is_ws(#[trigger] s[j]),
        i == s.len() || !is_ws(s[i]),
    ensures
        trim_front(s) == s.skip(i),
    decreases i,
{
    if i == 0 {
        assert(s.skip(0) =~= s);
    } else {
        let r = s.drop_first();
        assert(forall|j: int| 0 <= j < i - 1 ==> is_ws(#[trigger] r[j]));
        lemma_trim_front_skip(r, i - 1);
        assert(r.skip(i - 1) =~= s.skip(i));
    }
}

/// Trimming the back removes exactly the trailing whitespace run.
pub proof fn lemma_trim_back_take(s: Seq<u8>, m: int)
    requires
        0 <= m <= s.len(),
        forall|j: int| m <= j < s.len() ==> is_ws(#[trigger] s[j]),
        m == 0 || !is_ws(s[m - 1]),
    ensures
        trim_back(s) == s.take(m),
    decreases s.len(),
{
    if m == s.len() {
        assert(s.take(m) =~= s);
    } else {
        let r = s.drop_last();
        assert(forall|j: int| m <= j < r.len() ==> is_ws(#[trigger] r[j]));
        lemma_trim_back_take(r, m);
        assert(r.take(m) =~= s.take(m));
    }
}

/// Copy `s[a..b]` out of a byte vector.
fn copy_range(s: &Vec<u8>, a: usize, b: usize) -> (t: Vec<u8>)
    requires
        a <= b <= s@.len(),
    ensures
        t@ == s@.subrange(a as int, b as int),
{
    let mut t: Vec<u8> = Vec::new();
    let mut i: usize = a;
    while i < b
        invariant
            a <= i <= b <= s@.len(),
            t@ =~= s@.subrange(a as int, i as int),
        decreases b - i,
    {
        t.push(s[i]);
        assert(t@ =~= s@.subrange(a as int, i + 1));
        i = i + 1;
    }
    assert(t@ =~= s@.subrange(a as int, b as int));
    t
}

/// Split a byte vector at every occurrence of `d`.
fn split_bytes(s: &Vec<u8>, d: u8) -> (out: Vec<Vec<u8>>)
    ensures
        out@.len() == split_at_delims(s@, d).len(),
        forall|i: int|
            0 <= i < out@.len() ==> #[trigger] out@[i]@ == split_at_delims(s@, d)[i],
{
    let ghost full = split_at_delims(s@, d);
    let n = s.len();
    let mut out: Vec<Vec<u8>> = Vec::new();
    let mut pos: usize = 0;
    proof {
        assert(s@.skip(0) =~= s@);
        assert(full.skip(0) =~~= full);
    }
    loop
        invariant_except_break
            pos <= n,
            n == s@.len(),
            full == split_at_delims(s@, d),
            out@.len() + split_at_delims(s@.skip(pos as int), d).len() == full.len(),
            forall|i: int| 0 <= i < out@.len() ==> #[trigger] out@[i]@ == full[i],
            split_at_delims(s@.skip(pos as int), d) == full.skip(out@.len() as int),
        ensures
            out@.len() == full.len(),
            forall|i: int| 0 <= i < out@.len() ==> #[trigger] out@[i]@ == full[i],
        decreases n - pos,
    {
        proof {
            lemma_split_nonempty(s@.skip(pos as int), d);
        }
        let mut q: usize = pos;
        while q < n && s[q] != d
            invariant
                pos <= q <= n,
                n == s@.len(),
                forall|j: int| pos <= j < q ==> #[trigger] s@[j] != d,
            decreases n - q,
        {
            q = q + 1;
        }
        let piece = copy_range(s, pos, q);
        if q == n {
            proof {
                let tail = s@.skip(pos as int);
                assert(forall|j: int| 0 <= j < tail.len() ==> #[trigger] tail[j] != d);
                lemma_split_no_delim(tail, d);
                assert(piece@ =~= tail);
                assert(full.skip(out@.len() as int) =~~= seq![tail]);
                assert(out@.len() + 1 == full.len());
                assert(full.skip(out@.len() as int)[0] == full[out@.len() as int]);
                assert(seq![tail][0] == tail);
                assert(full[out@.len() as int] == tail);
            }
            out.push(piece);
            break ;
        }
        proof {
            let tail = s@.skip(pos as int);
            let p = q - pos;
            assert(tail[p] == d);
            assert(forall|j: int| 0 <= j < p ==> #[trigger] tail[j] != d);
            lemma_split_first_delim(tail, d, p as int);
            assert(tail.take(p as int) =~= s@.subrange(pos as int, q as int));
            assert(tail.skip(p + 1) =~= s@.skip(q + 1));
            assert(full.skip(out@.len() as int)[0] == full[out@.len() as int]);
            assert((seq![tail.take(p as int)] + split_at_delims(s@.skip(q + 1), d))[0]
                == tail.take(p as int));
            assert(full[out@.len() as int] == tail.take(p as int));
            assert((seq![tail.take(p as int)] + split_at_delims(s@.skip(q + 1), d)).drop_first()
                =~~= split_at_delims(s@.skip(q + 1), d));
            assert(full.skip(out@.len() as int + 1) =~~= split_at_delims(s@.skip(q + 1), d));
        }
        out.push(piece);
        pos = q + 1;
    }
    out
}

/// Parse one field: trim it, then read it as a base-10 number.  Returns
/// the value exactly when the field is usable.
fn parse_field(f: &Vec<u8>) -> (r: Option<u64>)
    ensures
        r is Some <==> field_ok(f@),
        r matches Some(v) ==> v == field_val(f@),
{
    let n = f.len();
    let mut lo: usize = 0;
    while lo < n && (f[lo] == 32 || f[lo] == 9)
        invariant
            lo <= n,
            n == f@.len(),
            forall|j: int| 0 <= j < lo ==> is_ws(#[trigger] f@[j]),
        decreases n - lo,
    {
        lo = lo + 1;
    }
    if lo == n {
        proof {
            lemma_trim_front_skip(f@, n as int);
            assert(f@.skip(n as int) =~= Seq::<u8>::empty());
        }
        return None;
    }
    proof {
        lemma_trim_front_skip(f@, lo as int);
    }
    let mut hi: usize = n;
    while hi > lo && (f[hi - 1] == 32 || f[hi - 1] == 9)
        invariant
            lo < hi <= n,
            n == f@.len(),
            !is_ws(f@[lo as int]),
            forall|j: int| hi <= j < n ==> is_ws(#[trigger] f@[j]),
        decreases hi,
    {
        hi = hi - 1;
    }
    proof {
        let tail = f@.skip(lo as int);
        assert(forall|j: int|
            hi - lo <= j < tail.len() ==> is_ws(#[trigger] tail[j]));
        assert(!is_ws(tail[hi - lo - 1]));
        lemma_trim_back_take(tail, hi - lo);
        assert(tail.take(hi - lo) =~= f@.subrange(lo as int, hi as int));
    }
    let ghost t = trim(f@);
    assert(t == f@.subrange(lo as int, hi as int));
    let mut val: u64 = 0;
    let mut i: usize = lo;
    while i < hi
        invariant
            lo <= i <= hi <= n,
            n == f@.len(),
            t == trim(f@),
            t == f@.subrange(lo as int, hi as int),
            forall|j: int| lo <= j < i ==> is_digit(#[trigger] f@[j]),
            val == dec_val(t.take(i - lo)),
        decreases hi - i,
    {
        let b = f[i];
        if b < 48 || b > 57 {
            proof {
                assert(t[i - lo] == f@[i as int]);
                assert(!is_digit(t[i - lo]));
            }
            return None;
        }
        let d = (b - 48) as u64;
        proof {
            assert(t.take(i - lo + 1).drop_last() =~= t.take(i - lo));
            assert(t.take(i - lo + 1).last() == f@[i as int]);
        }
        let big = match val.checked_mul(10) {
            Some(m) => m.checked_add(d),
            None => None,
        };
        match big {
            Some(next) => {
                val = next;
            },
            None => {
                proof {
                    assert(dec_val(t.take(i - lo + 1)) > u64::MAX);
                    if all_digits(t) {
                        lemma_dec_val_prefix(t, i - lo + 1);
                    }
                }
                return None;
            },
        }
        i = i + 1;
    }
    proof {
        assert(t.take(hi - lo) =~= t);
        assert forall|j: int| 0 <= j < t.len() implies is_digit(#[trigger] t[j]) by {
            assert(t[j] == f@[lo + j]);
        }
    }
    Some(val)
}

/// Parse every record of a file into its first `cols` numeric columns.
/// Succeeds if and only if every record has at least `cols` fields and
/// each of those fields is a usable number; any malformed record aborts
/// the whole load.
pub fn parse_rows(data: &Vec<u8>, cols: usize) -> (r: Result<Vec<Vec<u64>>, DataError>)
    requires
        cols >= 1,
    ensures
        r is Ok <==> (forall|i: int|
            0 <= i < data_rows(data@).len() ==> row_ok(#[trigger] data_rows(data@)[i],
            cols as int)),
        r is Err ==> r == Result::<Vec<Vec<u64>>, DataError>::Err(DataError::Parse),
        r matches Ok(v) ==> {
            &&& v@.len() == data_rows(data@).len()
            &&& forall|i: int| 0 <= i < v@.len() ==> (#[trigger] v@[i])@.len() == cols
            &&& forall|i: int, c: int|
                #![trigger v@[i]@[c]]
                0 <= i < v@.len() && 0 <= c < cols ==> v@[i]@[c] == row_val(
                    data_rows(data@)[i],
                    c,
                )
        },
{
    let lines = split_bytes(data, 10);
    let ghost line_views = lines@.map(|_i: int, l: Vec<u8>| l@);
    proof {
        assert(line_views =~= split_at_delims(data@, 10));
        assert(data_rows(data@) == kept_rows(line_views));
    }
    let ghost rows = data_rows(data@);
    let nl = lines.len();
    let mut v: Vec<Vec<u64>> = Vec::new();
    let mut li: usize = 0;
    while li < nl
        invariant
            li <= nl,
            cols >= 1,
            nl == lines@.len(),
            line_views == lines@.map(|_i: int, l: Vec<u8>| l@),
            line_views == split_at_delims(data@, 10),
            rows == data_rows(data@),
            rows == kept_rows(line_views),
            v@.len() == kept_rows(line_views.take(li as int)).len(),
            forall|p: int|
                0 <= p < v@.len() ==> row_ok(#[trigger] rows[p], cols as int),
            forall|p: int| 0 <= p < v@.len() ==> (#[trigger] v@[p])@.len() == cols,
            forall|p: int, c: int|
                #![trigger v@[p]@[c]]
                0 <= p < v@.len() && 0 <= c < cols ==> v@[p]@[c] == row_val(rows[p], c),
        decreases nl - li,
    {
        proof {
            lemma_kept_rows_prefix(line_views, li as int);
            lemma_kept_rows_prefix(line_views, li + 1);
            assert(line_views.take(li + 1).drop_last() =~= line_views.take(li as int));
            assert(line_views.take(li + 1).last() == line_views[li as int]);
            assert(line_views[li as int] == lines@[li as int]@);
        }
        let line = &lines[li];
        let llen = line.len();
        let cut = if llen > 0 && line[llen - 1] == 13 {
            llen - 1
        } else {
            llen
        };
        let stripped = copy_range(line, 0, cut);
        proof {
            assert(stripped@ =~= strip_cr(line_views[li as int]));
        }
        if stripped.len() > 0 {
            let ghost row = strip_cr(line_views[li as int]);
            let ghost ridx = kept_rows(line_views.take(li as int)).len() as int;
            proof {
                assert(kept_rows(line_views.take(li + 1)) == kept_rows(
                    line_views.take(li as int),
                ).push(row));
                assert(kept_rows(line_views.take(li + 1))[ridx] == row);
                assert(ridx < kept_rows(line_views.take(li + 1)).len());
                assert(rows[ridx] == row);
            }
            let fields = split_bytes(&stripped, 44);
            if fields.len() < cols {
                proof {
                    assert(!row_ok(rows[ridx], cols as int));
                }
                return Err(DataError::Parse);
            }
            let mut rowvals: Vec<u64> = Vec::new();
            let mut c: usize = 0;
            while c < cols
                invariant
                    c <= cols,
                    cols <= fields@.len(),
                    stripped@ == row,
                    fields@.len() == row_fields(row).len(),
                    forall|p: int|
                        0 <= p < fields@.len() ==> #[trigger] fields@[p]@ == row_fields(
                            row,
                        )[p],
                    rows == data_rows(data@),
                    0 <= ridx < rows.len(),
                    rows[ridx] == row,
                    rowvals@.len() == c,
                    forall|p: int| 0 <= p < c ==> field_ok(#[trigger] row_fields(row)[p]),
                    forall|p: int|
                        0 <= p < c ==> #[trigger] rowvals@[p] == row_val(row, p),
                decreases cols - c,
            {
                match parse_field(&fields[c]) {
                    Some(x) => {
                        rowvals.push(x);
                    },
                    None => {
                        proof {
                            assert(!field_ok(row_fields(row)[c as int]));
                            assert(!row_ok(rows[ridx], cols as int));
                        }
                        return Err(DataError::Parse);
                    },
                }
                c = c + 1;
            }
            v.push(rowvals);
        } else {
            proof {
                assert(kept_rows(line_views.take(li + 1)) == kept_rows(
                    line_views.take(li as int),
                ));
            }
        }
        li = li + 1;
    }
    proof {
        assert(line_views.take(nl as int) =~= line_views);
    }
    Ok(v)
}

/// Parse a one-column file (the membership list or the label list).
pub fn parse_column(data: &Vec<u8>) -> (r: Result<Vec<u64>, DataError>)
    ensures
        r is Ok <==> (forall|i: int|
            0 <= i < data_rows(data@).len() ==> row_ok(#[trigger] data_rows(data@)[i], 1)),
        r is Err ==> r == Result::<Vec<u64>, DataError>::Err(DataError::Parse),
        r matches Ok(v) ==> {
            &&& v@.len() == data_rows(data@).len()
            &&& forall|i: int|
                0 <= i < v@.len() ==> #[trigger] v@[i] == row_val(data_rows(data@)[i], 0)
        },
{
    match parse_rows(data, 1) {
        Err(e) => Err(e),
        Ok(rows) => {
            let mut v: Vec<u64> = Vec::new();
            let mut i: usize = 0;
            let n = rows.len();
            while i < n
                invariant
                    i <= n,
                    n == rows@.len(),
                    v@.len() == i,
                    forall|p: int| 0 <= p < n ==> (#[trigger] rows@[p])@.len() == 1,
                    forall|p: int, c: int|
                        #![trigger rows@[p]@[c]]
                        0 <= p < n && 0 <= c < 1 ==> rows@[p]@[c] == row_val(
                            data_rows(data@)[p],
                            c,
                        ),
                    forall|p: int|
                        0 <= p < i ==> #[trigger] v@[p] == row_val(data_rows(data@)[p], 0),
                decreases n - i,
            {
                v.push(rows[i][0]);
                i = i + 1;
            }
            Ok(v)
        },
    }
}

/// Parse a two-column file (the edge list), keeping the first two columns
/// of every record as an ordered pair.
pub fn parse_pairs(data: &Vec<u8>) -> (r: Result<Vec<(u64, u64)>, DataError>)
    ensures
        r is Ok <==> (forall|i: int|
            0 <= i < data_rows(data@).len() ==> row_ok(#[trigger] data_rows(data@)[i], 2)),
        r is Err ==> r == Result::<Vec<(u64, u64)>, DataError>::Err(DataError::Parse),
        r matches Ok(v) ==> {
            &&& v@.len() == data_rows(data@).len()
            &&& forall|i: int|
                0 <= i < v@.len() ==> (#[trigger] v@[i]).0 == row_val(data_rows(data@)[i], 0)
                    && v@[i].1 == row_val(data_rows(data@)[i], 1)
        },
{
    match parse_rows(data, 2) {
        Err(e) => Err(e),
        Ok(rows) => {
            let mut v: Vec<(u64, u64)> = Vec::new();
            let mut i: usize = 0;
            let n = rows.len();
            while i < n
                invariant
                    i <= n,
                    n == rows@.len(),
                    v@.len() == i,
                    forall|p: int| 0 <= p < n ==> (#[trigger] rows@[p])@.len() == 2,
                    forall|p: int, c: int|
                        #![trigger rows@[p]@[c]]
                        0 <= p < n && 0 <= c < 2 ==> rows@[p]@[c] == row_val(
                            data_rows(data@)[p],
                            c,
                        ),
                    forall|p: int|
                        0 <= p < i ==> (#[trigger] v@[p]).0 == row_val(data_rows(data@)[p], 0)
                            && v@[p].1 == row_val(data_rows(data@)[p], 1),
                decreases n - i,
            {
                let r0 = rows[i][0];
                let r1 = rows[i][1];
                v.push((r0, r1));
                i = i + 1;
            }
            Ok(v)
        },
    }
}

} // verus!
