//! Loads the key matrix from raw key text: newline-separated lines of
//! whitespace-separated signed integer tokens, the first value of the first
//! non-empty line giving the matrix dimension.

use vstd::prelude::*;

verus! {

use vstd::string::StrSliceExecFns;

/// Whitespace that separates values within a line.
pub open spec fn is_space(c: char) -> bool {
    c == ' ' || c == '\t' || c == '\r' || c == '\u{b}' || c == '\u{c}'
}

/// Whether `c` is a decimal digit.
pub open spec fn is_digit(c: char) -> bool {
    48 <= c as u32 && c as u32 <= 57
}

/// Whether every character of `s` is a decimal digit.
pub open spec fn all_digits(s: Seq<char>) -> bool {
    forall|i: int| 0 <= i < s.len() ==> is_digit(#[trigger] s[i])
}

/// The number the digit string `s` denotes in base 10 (0 for the empty
/// string).
pub open spec fn digits_val(s: Seq<char>) -> int
    decreases s.len(),
{
    if s.len() == 0 {
        0
    } else {
        digits_val(s.drop_last()) * 10 + (s.last() as u32 - 48)
    }
}

/// The signed integer a token denotes, if any: an optional '+' or '-'
/// followed by at least one digit, with a value that fits an i64; any other
/// token denotes nothing and is dropped.
pub open spec fn token_value(t: Seq<char>) -> Option<i64> {
    let body = if t.len() > 0 && (t[0] == '+' || t[0] == '-') {
        t.drop_first()
    } else {
        t
    };
    if body.len() > 0 && all_digits(body) {
        let v = if t[0] == '-' {
            -digits_val(body)
        } else {
            digits_val(body)
        };
        if i64::MIN <= v <= i64::MAX {
            Some(v as i64)
        } else {
            None
        }
    } else {
        None
    }
}

/// The segments of `s` between occurrences of `sep`: always one segment more
/// than there are separators.
pub open spec fn split_on(s: Seq<char>, sep: char) -> Seq<Seq<char>>
    decreases s.len(),
{
    if s.len() == 0 {
        seq![Seq::empty()]
    } else {
        let pre = split_on(s.drop_last(), sep);
        if s.last() == sep {
            pre.push(Seq::empty())
        } else {
            pre.drop_last().push(pre.last().push(s.last()))
        }
    }
}

/// A split always yields at least one segment, and the last segment is no
/// longer than the text itself.
pub proof fn lemma_split_on_len(s: Seq<char>, sep: char)
    ensures
        split_on(s, sep).len() >= 1,
        split_on(s, sep).last().len() <= s.len(),
    decreases s.len(),
{
    if s.len() > 0 {
        lemma_split_on_len(s.drop_last(), sep);
    }
}

/// The lines of `s`: the segments between newlines, except that a trailing
/// empty segment (after a final newline, or in empty text) is no line.
pub open spec fn lines_of(s: Seq<char>) -> Seq<Seq<char>> {
    let raw = split_on(s, '\n');
    if raw.last().len() == 0 {
        raw.drop_last()
    } else {
        raw
    }
}

/// The maximal whitespace-free runs of `s`, in order.
pub open spec fn tokens_of(s: Seq<char>) -> Seq<Seq<char>>
    decreases s.len(),
{
    if s.len() == 0 {
        Seq::empty()
    } else {
        let pre = tokens_of(s.drop_last());
        let c = s.last();
        if is_space(c) {
            pre
        } else if s.len() >= 2 && !is_space(s[s.len() - 2]) {
            pre.drop_last().push(pre.last().push(c))
        } else {
            pre.push(seq![c])
        }
    }
}

/// The numeric values of a line's tokens, in order; tokens that denote no
/// i64 are dropped.
pub open spec fn values_of_tokens(ts: Seq<Seq<char>>) -> Seq<i64>
    decreases ts.len(),
{
    if ts.len() == 0 {
        Seq::empty()
    } else {
        let pre = values_of_tokens(ts.drop_last());
        match token_value(ts.last()) {
            Some(v) => pre.push(v),
            None => pre,
        }
    }
}

/// The numeric values one line of key text holds.
pub open spec fn row_values(line: Seq<char>) -> Seq<i64> {
    values_of_tokens(tokens_of(line))
}

/// The parsed rows of the raw key text: the numeric values of each line.
pub open spec fn parsed_rows(s: Seq<char>) -> Seq<Seq<i64>> {
    lines_of(s).map_values(|l: Seq<char>| row_values(l))
}

/// The characters of `s`, as a vector.
fn chars_of(s: &str) -> (r: Vec<char>)
    ensures
        r@ == s@,
{
    let len = s.unicode_len();
    let mut out: Vec<char> = Vec::new();
    let mut i: usize = 0;
    while i < len
        invariant
            len == s@.len(),
            i <= len,
            out@ == s@.take(i as int),
        decreases len - i,
    {
        out.push(s.get_char(i));
        proof {
            assert(s@.take(i as int + 1) =~= s@.take(i as int).push(s@[i as int]));
        }
        i = i + 1;
    }
    proof {
        assert(s@.take(len as int) =~= s@);
    }
    out
}

/// The base-10 value of a digit string never shrinks as digits are appended.
proof fn lemma_digits_val_bounds(s: Seq<char>, i: int)
    requires
        all_digits(s),
        0 <= i <= s.len(),
    ensures
        digits_val(s) >= digits_val(s.take(i)) >= 0,
    decreases s.len() - i,
{
    if i == s.len() {
        assert(s.take(i) =~= s);
        lemma_digits_val_nonneg(s);
    } else {
        lemma_digits_val_bounds(s, i + 1);
        lemma_digits_val_nonneg(s.take(i));
        assert(s.take(i + 1).drop_last() =~= s.take(i));
        assert(digits_val(s.take(i + 1)) == digits_val(s.take(i)) * 10 + (s[i] as u32 - 48));
    }
}

/// A digit string denotes a non-negative number.
proof fn lemma_digits_val_nonneg(s: Seq<char>)
    requires
        all_digits(s),
    ensures
        digits_val(s) >= 0,
    decreases s.len(),
{
    if s.len() > 0 {
        assert(all_digits(s.drop_last()));
        lemma_digits_val_nonneg(s.drop_last());
    }
}

/// Parses one token as a signed integer: an optional sign and at least one
/// digit, rejecting anything else and values that do not fit an i64.
#[verifier::loop_isolation(false)]
fn parse_token(tok: &Vec<char>) -> (r: Option<i64>)
    ensures
        r == token_value(tok@),
{
    let len = tok.len();
    if len == 0 {
        return None;
    }
    let c0 = tok[0];
    let neg = c0 == '-';
    let start: usize = if c0 == '-' || c0 == '+' {
        1
    } else {
        0
    };
    let ghost body = if c0 == '-' || c0 == '+' {
        tok@.drop_first()
    } else {
        tok@
    };
    proof {
        assert(body =~= tok@.subrange(start as int, len as int));
    }
    if start == len {
        return None;
    }
    let mut mag: u64 = 0;
    let mut j: usize = start;
    while j < len
        invariant
            start <= j <= len,
            len == tok@.len(),
            start <= 1,
            body == tok@.subrange(start as int, len as int),
            all_digits(body.take(j - start)),
            mag == digits_val(body.take(j - start)),
        decreases len - j,
    {
        let c = tok[j];
        let u = c as u32;
        if u < 48 || u > 57 {
            proof {
                assert(body[j - start] == tok@[j as int]);
                assert(!all_digits(body));
            }
            return None;
        }
        let d = (u - 48) as u64;
        proof {
            assert(body.take(j - start + 1).drop_last() =~= body.take(j - start));
            assert(body.take(j - start + 1).last() == tok@[j as int]);
        }
        let m10 = match mag.checked_mul(10) {
            Some(m) => m,
            None => {
                proof {
                    lemma_overflow_means_out_of_range(body, j - start + 1);
                }
                return None;
            },
        };
        let m = match m10.checked_add(d) {
            Some(m) => m,
            None => {
                proof {
                    lemma_overflow_means_out_of_range(body, j - start + 1);
                }
                return None;
            },
        };
        mag = m;
        j = j + 1;
    }
    proof {
        assert(body.take(len - start) =~= body);
    }
    if neg {
        if mag <= 0x7fff_ffff_ffff_ffff {
            Some(-(mag as i64))
        } else if mag == 0x8000_0000_0000_0000 {
            Some(i64::MIN)
        } else {
            None
        }
    } else {
        if mag <= 0x7fff_ffff_ffff_ffff {
            Some(mag as i64)
        } else {
            None
        }
    }
}

/// The line still being read: the text after the last newline seen so far.
pub open spec fn cur_line(s: Seq<char>) -> Seq<char> {
    split_on(s, '\n').last()
}

/// The lines already ended by a newline.
pub open spec fn done_lines(s: Seq<char>) -> Seq<Seq<char>> {
    split_on(s, '\n').drop_last()
}

/// Ends the token being read: a token that denotes an integer adds its value
/// to the row, any other token (or none at all) leaves the row as it is.
fn close_token(cur: &mut Vec<i64>, tok: &mut Vec<char>)
    ensures
        final(tok)@.len() == 0,
        final(cur)@ == match token_value(old(tok)@) {
            Some(v) => old(cur)@.push(v),
            None => old(cur)@,
        },
{
    match parse_token(tok) {
        Some(v) => {
            cur.push(v);
        },
        None => {},
    }
    tok.clear();
}

/// Parses the raw key text into one row of numeric values per line: values
/// within a line are separated by whitespace, and tokens that denote no
/// integer are silently dropped.
#[verifier::loop_isolation(false)]
pub fn clean_key(raw_key: &String) -> (r: Vec<Vec<i64>>)
    ensures
        r@.len() == parsed_rows(raw_key@).len(),
        forall|i: int| 0 <= i < r@.len() ==> #[trigger] r@[i]@ == parsed_rows(raw_key@)[i],
{
    let cs = chars_of(raw_key.as_str());
    let n = cs.len();
    let mut rows: Vec<Vec<i64>> = Vec::new();
    let mut cur: Vec<i64> = Vec::new();
    let mut tok: Vec<char> = Vec::new();
    let mut line_len: usize = 0;
    let mut i: usize = 0;
    proof {
        lemma_split_on_len(cs@.take(0), '\n');
    }
    while i < n
        invariant
            i <= n,
            rows@.len() == done_lines(cs@.take(i as int)).len(),
            forall|k: int|
                0 <= k < rows@.len() ==> #[trigger] rows@[k]@ == row_values(
                    done_lines(cs@.take(i as int))[k],
                ),
            line_len == cur_line(cs@.take(i as int)).len(),
            (tok@.len() == 0) <==> (cur_line(cs@.take(i as int)).len() == 0 || is_space(
                cur_line(cs@.take(i as int)).last(),
            )),
            tok@.len() > 0 ==> tokens_of(cur_line(cs@.take(i as int))).len() >= 1,
            tok@.len() > 0 ==> tok@ == tokens_of(cur_line(cs@.take(i as int))).last(),
            tok@.len() > 0 ==> cur@ == values_of_tokens(
                tokens_of(cur_line(cs@.take(i as int))).drop_last(),
            ),
            tok@.len() == 0 ==> cur@ == values_of_tokens(tokens_of(cur_line(cs@.take(i as int)))),
        decreases n - i,
    {
        let c = cs[i];
        proof {
            assert(cs@.take(i as int + 1).drop_last() =~= cs@.take(i as int));
            assert(cs@.take(i as int + 1).last() == c);
            lemma_split_on_len(cs@.take(i as int), '\n');
        }
        let ghost line_pre = cur_line(cs@.take(i as int));
        if c == '\n' {
            close_token(&mut cur, &mut tok);
            proof {
                if tokens_of(line_pre).len() >= 1 {
                    assert(tokens_of(line_pre).drop_last().push(tokens_of(line_pre).last())
                        =~= tokens_of(line_pre));
                }
                assert(cur@ == row_values(line_pre));
                assert(split_on(cs@.take(i as int + 1), '\n') == done_lines(
                    cs@.take(i as int),
                ).push(line_pre).push(Seq::<char>::empty()));
            }
            rows.push(cur);
            cur = Vec::new();
            line_len = 0;
        } else if c == ' ' || c == '\t' || c == '\r' || c == '\u{b}' || c == '\u{c}' {
            close_token(&mut cur, &mut tok);
            proof {
                if tokens_of(line_pre).len() >= 1 {
                    assert(tokens_of(line_pre).drop_last().push(tokens_of(line_pre).last())
                        =~= tokens_of(line_pre));
                }
                assert(cur_line(cs@.take(i as int + 1)) == line_pre.push(c));
                assert(line_pre.push(c).drop_last() =~= line_pre);
                assert(tokens_of(line_pre.push(c)) == tokens_of(line_pre));
            }
            line_len = line_len + 1;
        } else {
            let ghost toks_pre = tokens_of(line_pre);
            tok.push(c);
            proof {
                assert(cur_line(cs@.take(i as int + 1)) == line_pre.push(c));
                let ext = line_pre.push(c);
                assert(ext.drop_last() =~= line_pre);
                if line_pre.len() >= 1 && !is_space(line_pre.last()) {
                    assert(ext[ext.len() - 2] == line_pre.last());
                    assert(tokens_of(ext) == toks_pre.drop_last().push(toks_pre.last().push(c)));
                    assert(tokens_of(ext).drop_last() =~= toks_pre.drop_last());
                } else {
                    assert(tokens_of(ext) == toks_pre.push(seq![c]));
                    assert(tok@ == seq![c]);
                    assert(tokens_of(ext).drop_last() =~= toks_pre);
                }
            }
            line_len = line_len + 1;
        }
        i = i + 1;
    }
    proof {
        assert(cs@.take(n as int) =~= cs@);
        assert(cs@ == raw_key@);
    }
    let ghost last_line = cur_line(cs@);
    close_token(&mut cur, &mut tok);
    proof {
        if tokens_of(last_line).len() >= 1 {
            assert(tokens_of(last_line).drop_last().push(tokens_of(last_line).last())
                =~= tokens_of(last_line));
        }
        assert(cur@ == row_values(last_line));
    }
    if line_len > 0 {
        rows.push(cur);
        proof {
            assert(lines_of(raw_key@) == done_lines(cs@).push(last_line));
        }
    } else {
        proof {
            assert(lines_of(raw_key@) == done_lines(cs@));
        }
    }
    rows
}

/// Why raw key text yields no key matrix.
#[derive(Clone, Copy, Debug, PartialEq, Eq, Structural)]
pub enum KeyError {
    /// No value at all, fewer rows than the declared size asks for, or a row
    /// without exactly that many values.
    MalformedKeyFile,
    /// A declared size that is not a positive number.
    DegenerateKeySize,
}

/// A square key matrix of dimension `size`, one row per inner vector.
#[derive(Debug)]
pub struct KeyMatrix {
    pub size: usize,
    pub rows: Vec<Vec<i64>>,
}

impl KeyMatrix {
    /// The matrix is square with a positive dimension.
    pub open spec fn wf(&self) -> bool {
        &&& self.size >= 1
        &&& self.rows@.len() == self.size
        &&& forall|i: int| 0 <= i < self.rows@.len() ==> (#[trigger] self.rows@[i])@.len()
            == self.size
    }
}

/// The index of the first non-empty row, or -1 when every row is empty.
pub open spec fn first_nonempty(rows: Seq<Seq<i64>>) -> int
    decreases rows.len(),
{
    if rows.len() == 0 {
        -1
    } else if rows[0].len() > 0 {
        0
    } else {
        let r = first_nonempty(rows.drop_first());
        if r == -1 {
            -1
        } else {
            1 + r
        }
    }
}

/// When the rows before `f` are empty and row `f` is not, `f` is the first
/// non-empty row.
proof fn lemma_first_nonempty_at(rows: Seq<Seq<i64>>, f: int)
    requires
        0 <= f < rows.len(),
        forall|k: int| 0 <= k < f ==> #[trigger] rows[k].len() == 0,
        rows[f].len() > 0,
    ensures
        first_nonempty(rows) == f,
    decreases f,
{
    if f > 0 {
        lemma_first_nonempty_at(rows.drop_first(), f - 1);
    }
}

/// When every row is empty there is no first non-empty row.
proof fn lemma_first_nonempty_none(rows: Seq<Seq<i64>>)
    requires
        forall|k: int| 0 <= k < rows.len() ==> #[trigger] rows[k].len() == 0,
    ensures
        first_nonempty(rows) == -1,
    decreases rows.len(),
{
    if rows.len() > 0 {
        lemma_first_nonempty_none(rows.drop_first());
    }
}

/// What the parsed rows of the raw key text determine: the matrix dimension
/// and the rows of the key matrix, or the error that rules them out. The
/// dimension is the first value of the first non-empty row; the matrix is the
/// rows immediately following that row, each of which must hold exactly that
/// many values.
pub open spec fn key_outcome(rows: Seq<Seq<i64>>) -> Result<(int, Seq<Seq<i64>>), KeyError> {
    let f = first_nonempty(rows);
    if f == -1 {
        Err(KeyError::MalformedKeyFile)
    } else {
        let n = rows[f][0];
        if n <= 0 {
            Err(KeyError::DegenerateKeySize)
        } else if rows.len() - (f + 1) < n {
            Err(KeyError::MalformedKeyFile)
        } else if exists|i: int| 0 <= i < n && #[trigger] rows[f + 1 + i].len() != n {
            Err(KeyError::MalformedKeyFile)
        } else {
            Ok((n as int, rows.subrange(f + 1, f + 1 + n)))
        }
    }
}

/// Reads the declared matrix size: the first value of the first row.
pub fn get_key_matrix_size(key_matrix: &Vec<Vec<i64>>) -> (r: usize)
    requires
        key_matrix@.len() > 0,
        key_matrix@[0]@.len() > 0,
        0 <= key_matrix@[0]@[0] <= usize::MAX,
    ensures
        r == key_matrix@[0]@[0],
{
    let first = &key_matrix[0];
    first[0] as usize
}

/// The rows immediately following the first row, as many as the size the
/// first row declares: the key matrix without its size marker.
pub fn get_clean_matrix(key_matrix: &Vec<Vec<i64>>) -> (r: Vec<Vec<i64>>)
    requires
        key_matrix@.len() > 0,
        key_matrix@[0]@.len() > 0,
        0 <= key_matrix@[0]@[0],
        key_matrix@[0]@[0] + 1 <= key_matrix@.len(),
    ensures
        r@.len() == key_matrix@[0]@[0],
        forall|i: int| 0 <= i < r@.len() ==> #[trigger] r@[i]@ == key_matrix@[i + 1]@,
{
    let total = key_matrix.len();
    proof {
        assert(key_matrix@[0]@[0] < total);
    }
    let size = get_key_matrix_size(key_matrix);
    let mut out: Vec<Vec<i64>> = Vec::new();
    let mut i: usize = 0;
    while i < size
        invariant
            size == key_matrix@[0]@[0],
            size + 1 <= key_matrix@.len(),
            i <= size,
            out@.len() == i,
            forall|k: int| 0 <= k < i ==> #[trigger] out@[k]@ == key_matrix@[k + 1]@,
        decreases size - i,
    {
        let src = &key_matrix[i + 1];
        let mut row: Vec<i64> = Vec::new();
        let mut j: usize = 0;
        while j < src.len()
            invariant
                src == &key_matrix@[i as int + 1],
                j <= src@.len(),
                row@ == src@.take(j as int),
            decreases src@.len() - j,
        {
            row.push(src[j]);
            proof {
                assert(src@.take(j as int + 1) =~= src@.take(j as int).push(src@[j as int]));
            }
            j = j + 1;
        }
        proof {
            assert(src@.take(src@.len() as int) =~= src@);
        }
        out.push(row);
        i = i + 1;
    }
    out
}

/// Loads the key matrix from raw key text. The first value of the first
/// non-empty parsed line declares the dimension N; the N lines immediately
/// after it must each hold exactly N values and form the matrix. Empty text
/// or too few rows is a malformed key file; a size below 1 is a degenerate
/// size; a following row with more or fewer values than N is malformed.
#[verifier::loop_isolation(false)]
pub fn load_key_matrix(raw_key_text: &String) -> (r: Result<KeyMatrix, KeyError>)
    ensures
        match r {
            Ok(km) => {
                &&& key_outcome(parsed_rows(raw_key_text@)) matches Ok((n, rows))
                &&& km.wf()
                &&& km.size == n
                &&& km.rows@.len() == rows.len()
                &&& forall|i: int| 0 <= i < rows.len() ==> #[trigger] km.rows@[i]@ == rows[i]
            },
            Err(e) => key_outcome(parsed_rows(raw_key_text@)) == Err::<(int, Seq<Seq<i64>>),
                KeyError,
            >(e),
        },
{
    let rows = clean_key(raw_key_text);
    let ghost model = parsed_rows(raw_key_text@);
    proof {
        assert(rows@.len() == model.len());
    }
    let mut f: usize = 0;
    while f < rows.len() && rows[f].len() == 0
        invariant
            f <= rows@.len(),
            forall|k: int| 0 <= k < f ==> #[trigger] model[k].len() == 0,
        decreases rows@.len() - f,
    {
        f = f + 1;
    }
    if f == rows.len() {
        proof {
            lemma_first_nonempty_none(model);
        }
        return Err(KeyError::MalformedKeyFile);
    }
    proof {
        lemma_first_nonempty_at(model, f as int);
    }
    let n64 = rows[f][0];
    if n64 <= 0 {
        return Err(KeyError::DegenerateKeySize);
    }
    let avail = rows.len() - f - 1;
    if (n64 as u128) > (avail as u128) {
        return Err(KeyError::MalformedKeyFile);
    }
    let n = n64 as usize;
    let mut out: Vec<Vec<i64>> = Vec::new();
    let mut i: usize = 0;
    while i < n
        invariant
            i <= n,
            out@.len() == i,
            forall|k: int| 0 <= k < i ==> #[trigger] out@[k]@ == model[f + 1 + k],
            forall|k: int| 0 <= k < i ==> #[trigger] out@[k]@.len() == n,
        decreases n - i,
    {
        let src = &rows[f + 1 + i];
        if src.len() != n {
            proof {
                assert(model[f + 1 + i].len() != n);
            }
            return Err(KeyError::MalformedKeyFile);
        }
        let mut row: Vec<i64> = Vec::new();
        let mut j: usize = 0;
        while j < src.len()
            invariant
                src == &rows@[f + 1 + i],
                j <= src@.len(),
                row@ == src@.take(j as int),
            decreases src@.len() - j,
        {
            row.push(src[j]);
            proof {
                assert(src@.take(j as int + 1) =~= src@.take(j as int).push(src@[j as int]));
            }
            j = j + 1;
        }
        proof {
            assert(src@.take(src@.len() as int) =~= src@);
        }
        out.push(row);
        i = i + 1;
    }
    proof {
        assert forall|k: int| 0 <= k < n implies #[trigger] model[f + 1 + k].len() == n by {
            assert(out@[k]@ == model[f + 1 + k]);
        }
        assert forall|k: int| 0 <= k < n implies #[trigger] out@[k]@ == model.subrange(
            f + 1,
            f + 1 + n,
        )[k] by {}
    }
    Ok(KeyMatrix { size: n, rows: out })
}

/// A digit prefix already too large for a u64 makes the whole token's value
/// fall outside the i64 range, whatever its sign.
proof fn lemma_overflow_means_out_of_range(body: Seq<char>, k: int)
    requires
        0 <= k <= body.len(),
        all_digits(body.take(k)),
        digits_val(body.take(k)) > u64::MAX,
    ensures
        all_digits(body) ==> !(i64::MIN <= -digits_val(body) <= i64::MAX) && !(i64::MIN
            <= digits_val(body) <= i64::MAX),
{
    if all_digits(body) {
        lemma_digits_val_bounds(body, k);
    }
}

} // verus!
