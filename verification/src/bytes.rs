//! Byte-level utilities shared by the request parser and the response
//! builder: searching, trimming, whitespace splitting and line splitting,
//! each with a recursive specification and a verified executable form.

use vstd::prelude::*;

verus! {

/// ASCII whitespace, as the parser understands it: space, tab, line feed,
/// vertical tab, form feed, carriage return.
pub open spec fn is_space(b: u8) -> bool {
    b == 32 || (9 <= b && b <= 13)
}

/// Index of the first occurrence of `b` in `s` at or after `i`, if any.
pub open spec fn first_at_from(s: Seq<u8>, b: u8, i: int) -> Option<int>
    decreases s.len() - i,
{
    if i < 0 || i >= s.len() {
        None
    } else if s[i] == b {
        Some(i)
    } else {
        first_at_from(s, b, i + 1)
    }
}

/// Index of the first occurrence of `b` in `s`, if any.
pub open spec fn first_at(s: Seq<u8>, b: u8) -> Option<int> {
    first_at_from(s, b, 0)
}

pub proof fn lemma_first_at_from_some(s: Seq<u8>, b: u8, i: int, j: int)
    requires
        0 <= i <= j < s.len(),
        s[j] == b,
        forall|k: int| i <= k < j ==> s[k] != b,
    ensures
        first_at_from(s, b, i) == Some(j),
    decreases j - i,
{
    if i < j {
        lemma_first_at_from_some(s, b, i + 1, j);
    }
}

pub proof fn lemma_first_at_from_none(s: Seq<u8>, b: u8, i: int)
    requires
        forall|k: int| i <= k < s.len() ==> s[k] != b,
    ensures
        first_at_from(s, b, i) is None,
    decreases s.len() - i,
{
    if 0 <= i < s.len() {
        lemma_first_at_from_none(s, b, i + 1);
    }
}

/// First occurrence of `b` within `buf[from..end]`, scanning left to right.
pub fn find_byte_from(buf: &[u8], from: usize, end: usize, b: u8) -> (r: Option<usize>)
    requires
        from <= end <= buf@.len(),
    ensures
        match r {
            Some(j) => from <= j < end && buf@[j as int] == b
                && (forall|k: int| from <= k < j ==> buf@[k] != b),
            None => forall|k: int| from <= k < end ==> buf@[k] != b,
        },
{
    let mut i: usize = from;
    while i < end
        invariant
            from <= i <= end <= buf@.len(),
            forall|k: int| from <= k < i ==> buf@[k] != b,
        decreases end - i,
    {
        if buf[i] == b {
            return Some(i);
        }
        i = i + 1;
    }
    None
}

/// True exactly when the two byte slices hold the same bytes.
pub fn bytes_eq(a: &[u8], b: &[u8]) -> (r: bool)
    ensures
        r == (a@ == b@),
{
    if a.len() != b.len() {
        return false;
    }
    let mut i: usize = 0;
    while i < a.len()
        invariant
            i <= a@.len() == b@.len(),
            forall|k: int| 0 <= k < i ==> a@[k] == b@[k],
        decreases a@.len() - i,
    {
        if a[i] != b[i] {
            return false;
        }
        i = i + 1;
    }
    proof {
        assert(a@ =~= b@);
    }
    true
}

/// Copies `buf[from..end]` into a fresh vector.
pub fn vec_from_range(buf: &[u8], from: usize, end: usize) -> (r: Vec<u8>)
    requires
        from <= end <= buf@.len(),
    ensures
        r@ == buf@.subrange(from as int, end as int),
{
    let mut out: Vec<u8> = Vec::new();
    let mut i: usize = from;
    while i < end
        invariant
            from <= i <= end <= buf@.len(),
            out@ == buf@.subrange(from as int, i as int),
        decreases end - i,
    {
        out.push(buf[i]);
        i = i + 1;
        proof {
            assert(out@ =~= buf@.subrange(from as int, i as int));
        }
    }
    out
}

/// Copies a whole slice into a fresh vector.
pub fn vec_from(buf: &[u8]) -> (r: Vec<u8>)
    ensures
        r@ == buf@,
{
    let r = vec_from_range(buf, 0, buf.len());
    proof {
        assert(buf@.subrange(0, buf@.len() as int) =~= buf@);
    }
    r
}

/// Appends every byte of `s` to `out`.
pub fn append_bytes(out: &mut Vec<u8>, s: &[u8])
    ensures
        final(out)@ == old(out)@ + s@,
{
    let mut i: usize = 0;
    while i < s.len()
        invariant
            i <= s@.len(),
            out@ == old(out)@ + s@.subrange(0, i as int),
        decreases s@.len() - i,
    {
        out.push(s[i]);
        i = i + 1;
        proof {
            assert(out@ =~= old(out)@ + s@.subrange(0, i as int));
        }
    }
    proof {
        assert(old(out)@ + s@.subrange(0, s@.len() as int) =~= old(out)@ + s@);
    }
}

/// `s` without its leading whitespace.
pub open spec fn trim_front(s: Seq<u8>) -> Seq<u8>
    decreases s.len(),
{
    if s.len() > 0 && is_space(s[0]) {
        trim_front(s.skip(1))
    } else {
        s
    }
}

/// `s` without its trailing whitespace.
pub open spec fn trim_back(s: Seq<u8>) -> Seq<u8>
    decreases s.len(),
{
    if s.len() > 0 && is_space(s.last()) {
        trim_back(s.drop_last())
    } else {
        s
    }
}

/// `s` without surrounding whitespace.
pub open spec fn trim(s: Seq<u8>) -> Seq<u8> {
    trim_back(trim_front(s))
}

/// Copies `buf[from..end]` with surrounding whitespace removed.
pub fn trim_range(buf: &[u8], from: usize, end: usize) -> (r: Vec<u8>)
    requires
        from <= end <= buf@.len(),
    ensures
        r@ == trim(buf@.subrange(from as int, end as int)),
{
    let ghost whole = buf@.subrange(from as int, end as int);
    let mut i: usize = from;
    while i < end && is_space_byte(buf[i])
        invariant
            from <= i <= end <= buf@.len(),
            trim_front(whole) == trim_front(buf@.subrange(i as int, end as int)),
        decreases end - i,
    {
        proof {
            assert(buf@.subrange(i as int, end as int).skip(1)
                =~= buf@.subrange(i + 1, end as int));
        }
        i = i + 1;
    }
    proof {
        assert(trim_front(whole) == buf@.subrange(i as int, end as int));
    }
    let mut j: usize = end;
    while j > i && is_space_byte(buf[j - 1])
        invariant
            from <= i <= j <= end <= buf@.len(),
            trim_front(whole) == buf@.subrange(i as int, end as int),
            trim_back(buf@.subrange(i as int, end as int))
                == trim_back(buf@.subrange(i as int, j as int)),
        decreases j,
    {
        proof {
            assert(buf@.subrange(i as int, j as int).drop_last()
                =~= buf@.subrange(i as int, j - 1));
        }
        j = j - 1;
    }
    proof {
        assert(trim_back(buf@.subrange(i as int, j as int)) == buf@.subrange(i as int, j as int));
    }
    vec_from_range(buf, i, j)
}

/// Executable test for `is_space`.
pub fn is_space_byte(b: u8) -> (r: bool)
    ensures
        r == is_space(b),
{
    b == 32 || (9 <= b && b <= 13)
}

/// Length of the leading run of non-whitespace bytes of `s`.
pub open spec fn token_len(s: Seq<u8>) -> int
    decreases s.len(),
{
    if s.len() == 0 || is_space(s[0]) {
        0
    } else {
        1 + token_len(s.skip(1))
    }
}

proof fn lemma_token_len(s: Seq<u8>, i: int, j: int)
    requires
        0 <= i <= j <= s.len(),
        forall|k: int| i <= k < j ==> !is_space(s[k]),
        j == s.len() || is_space(s[j]),
    ensures
        token_len(s.skip(i)) == j - i,
    decreases j - i,
{
    if i == j {
        assert(s.skip(i).len() == 0 || is_space(s.skip(i)[0]));
    } else {
        lemma_token_len(s, i + 1, j);
        assert(s.skip(i).skip(1) =~= s.skip(i + 1));
    }
}

/// The whitespace-separated tokens of `s`, in order.
pub open spec fn split_ws(s: Seq<u8>) -> Seq<Seq<u8>>
    decreases s.len(),
    via split_ws_decreases
{
    if s.len() == 0 {
        Seq::empty()
    } else if is_space(s[0]) {
        split_ws(s.skip(1))
    } else {
        seq![s.take(token_len(s))] + split_ws(s.skip(token_len(s)))
    }
}

#[via_fn]
proof fn split_ws_decreases(s: Seq<u8>) {
    if s.len() > 0 && !is_space(s[0]) {
        lemma_token_len_bounds(s.skip(1));
        assert(1 <= token_len(s) <= s.len());
    }
}

proof fn lemma_token_len_bounds(s: Seq<u8>)
    ensures
        0 <= token_len(s) <= s.len(),
    decreases s.len(),
{
    if s.len() > 0 && !is_space(s[0]) {
        lemma_token_len_bounds(s.skip(1));
    }
}

/// Splits `line` into its whitespace-separated tokens.
pub fn split_ws_exec(line: &[u8]) -> (r: Vec<Vec<u8>>)
    ensures
        r.deep_view() == split_ws(line@),
{
    let mut toks: Vec<Vec<u8>> = Vec::new();
    proof {
        assert(toks.deep_view() =~= Seq::<Seq<u8>>::empty());
        assert(line@.skip(0) =~= line@);
        assert(Seq::<Seq<u8>>::empty() + split_ws(line@) =~= split_ws(line@));
    }
    let mut i: usize = 0;
    while i < line.len()
        invariant
            i <= line@.len(),
            split_ws(line@) == toks.deep_view() + split_ws(line@.skip(i as int)),
        decreases line@.len() - i,
    {
        if is_space_byte(line[i]) {
            proof {
                assert(line@.skip(i as int).skip(1) =~= line@.skip(i + 1));
            }
            i = i + 1;
        } else {
            let start = i;
            let mut j: usize = i + 1;
            while j < line.len() && !is_space_byte(line[j])
                invariant
                    start < j <= line@.len(),
                    forall|k: int| start <= k < j ==> !is_space(line@[k]),
                decreases line@.len() - j,
            {
                j = j + 1;
            }
            proof {
                lemma_token_len(line@, start as int, j as int);
                assert(line@.skip(start as int).take(j - start)
                    =~= line@.subrange(start as int, j as int));
                assert(line@.skip(start as int).skip(j - start) =~= line@.skip(j as int));
            }
            let ghost prev = toks.deep_view();
            let tok = vec_from_range(line, start, j);
            toks.push(tok);
            proof {
                assert(toks.deep_view() =~~= prev + seq![line@.subrange(start as int, j as int)]);
                assert(toks.deep_view() + split_ws(line@.skip(j as int))
                    =~= prev + split_ws(line@.skip(start as int)));
            }
            i = j;
        }
    }
    proof {
        assert(split_ws(line@.skip(line@.len() as int)) =~= Seq::<Seq<u8>>::empty());
        assert(toks.deep_view() + Seq::<Seq<u8>>::empty() =~= toks.deep_view());
    }
    toks
}

/// True when the four-byte blank-line separator CR LF CR LF starts at `i`.
pub open spec fn sep_at(s: Seq<u8>, i: int) -> bool {
    0 <= i && i + 4 <= s.len() && s[i] == 13 && s[i + 1] == 10 && s[i + 2] == 13 && s[i + 3] == 10
}

/// Index of the first CR LF CR LF separator at or after `i`, if any.
pub open spec fn first_sep_from(s: Seq<u8>, i: int) -> Option<int>
    decreases s.len() - i,
{
    if i < 0 || i + 4 > s.len() {
        None
    } else if sep_at(s, i) {
        Some(i)
    } else {
        first_sep_from(s, i + 1)
    }
}

/// Index of the first CR LF CR LF separator in `s`, if any.
pub open spec fn first_sep(s: Seq<u8>) -> Option<int> {
    first_sep_from(s, 0)
}

pub proof fn lemma_first_sep_bounds(s: Seq<u8>, i: int)
    ensures
        match first_sep_from(s, i) {
            Some(j) => i <= j && sep_at(s, j),
            None => true,
        },
    decreases s.len() - i,
{
    if 0 <= i && i + 4 <= s.len() && !sep_at(s, i) {
        lemma_first_sep_bounds(s, i + 1);
    }
}

/// Finds the first CR LF CR LF separator in `buf`.
pub fn find_sep(buf: &[u8]) -> (r: Option<usize>)
    ensures
        match r {
            Some(i) => first_sep(buf@) == Some(i as int),
            None => first_sep(buf@) is None,
        },
{
    proof {
        if buf@.len() < 4 {
            assert(first_sep_from(buf@, 0) is None);
        }
    }
    if buf.len() < 4 {
        return None;
    }
    let last_start = buf.len() - 4;
    let mut i: usize = 0;
    while i <= last_start
        invariant
            last_start == buf@.len() - 4,
            i <= last_start + 1,
            first_sep(buf@) == first_sep_from(buf@, i as int),
        decreases buf@.len() - i,
    {
        if buf[i] == 13 && buf[i + 1] == 10 && buf[i + 2] == 13 && buf[i + 3] == 10 {
            proof {
                assert(sep_at(buf@, i as int));
            }
            return Some(i);
        }
        proof {
            assert(!sep_at(buf@, i as int));
        }
        i = i + 1;
    }
    None
}

/// A line piece with one trailing carriage return removed, as the line
/// splitter produces it for a line ended by a line feed.
pub open spec fn strip_cr(l: Seq<u8>) -> Seq<u8> {
    if l.len() > 0 && l.last() == 13 {
        l.drop_last()
    } else {
        l
    }
}

/// The lines of `s`: pieces separated by line feeds, each piece ended by a
/// line feed losing one trailing carriage return, a final unterminated piece
/// kept as it stands, and no empty piece after a final line feed.
pub open spec fn split_lines(s: Seq<u8>) -> Seq<Seq<u8>>
    decreases s.len(),
    via split_lines_decreases
{
    if s.len() == 0 {
        Seq::empty()
    } else {
        match first_at(s, 10) {
            None => seq![s],
            Some(j) => seq![strip_cr(s.take(j))] + split_lines(s.skip(j + 1)),
        }
    }
}

#[via_fn]
proof fn split_lines_decreases(s: Seq<u8>) {
    lemma_first_at_bounds(s, 10, 0);
}

pub proof fn lemma_first_at_bounds(s: Seq<u8>, b: u8, i: int)
    ensures
        match first_at_from(s, b, i) {
            Some(j) => i <= j < s.len() && s[j] == b,
            None => true,
        },
    decreases s.len() - i,
{
    if 0 <= i < s.len() && s[i] != b {
        lemma_first_at_bounds(s, b, i + 1);
    }
}

/// Splits `buf[0..end]` into its lines.
pub fn split_lines_exec(buf: &[u8], end: usize) -> (r: Vec<Vec<u8>>)
    requires
        end <= buf@.len(),
    ensures
        r.deep_view() == split_lines(buf@.take(end as int)),
{
    let ghost head = buf@.take(end as int);
    let mut lines: Vec<Vec<u8>> = Vec::new();
    proof {
        assert(lines.deep_view() =~= Seq::<Seq<u8>>::empty());
        assert(head.skip(0) =~= head);
        assert(Seq::<Seq<u8>>::empty() + split_lines(head) =~= split_lines(head));
    }
    let mut pos: usize = 0;
    while pos < end
        invariant
            pos <= end <= buf@.len(),
            head == buf@.take(end as int),
            split_lines(head) == lines.deep_view() + split_lines(head.skip(pos as int)),
        decreases end - pos,
    {
        let ghost rest = head.skip(pos as int);
        let ghost prev = lines.deep_view();
        match find_byte_from(buf, pos, end, 10) {
            None => {
                proof {
                    lemma_first_at_from_none(rest, 10, 0);
                    assert(rest =~= buf@.subrange(pos as int, end as int));
                    assert(split_lines(rest) == seq![rest]);
                }
                let piece = vec_from_range(buf, pos, end);
                lines.push(piece);
                proof {
                    assert(lines.deep_view() =~~= prev + seq![rest]);
                    assert(head.skip(end as int) =~= Seq::<u8>::empty());
                    assert(lines.deep_view() + split_lines(head.skip(end as int))
                        =~= lines.deep_view());
                }
                pos = end;
            },
            Some(j) => {
                proof {
                    lemma_first_at_from_some(rest, 10, 0, j - pos);
                    assert(rest.take(j - pos) =~= buf@.subrange(pos as int, j as int));
                    assert(rest.skip(j - pos + 1) =~= head.skip(j + 1));
                    assert(split_lines(rest) == seq![strip_cr(rest.take(j - pos))]
                        + split_lines(head.skip(j + 1)));
                }
                let line_end: usize = if j > pos && buf[j - 1] == 13 {
                    proof {
                        assert(buf@.subrange(pos as int, j as int).drop_last()
                            =~= buf@.subrange(pos as int, j - 1));
                    }
                    j - 1
                } else {
                    j
                };
                proof {
                    assert(strip_cr(buf@.subrange(pos as int, j as int))
                        == buf@.subrange(pos as int, line_end as int));
                }
                let piece = vec_from_range(buf, pos, line_end);
                lines.push(piece);
                proof {
                    assert(lines.deep_view()
                        =~~= prev + seq![strip_cr(rest.take(j - pos))]);
                    assert(lines.deep_view() + split_lines(head.skip(j + 1))
                        =~= prev + split_lines(rest));
                }
                pos = j + 1;
            },
        }
    }
    proof {
        assert(head.skip(pos as int) =~= Seq::<u8>::empty());
        assert(lines.deep_view() + split_lines(head.skip(pos as int)) =~= lines.deep_view());
    }
    lines
}

/// A UTF-8 continuation byte.
pub open spec fn is_cont(b: u8) -> bool {
    0x80 <= b && b < 0xC0
}

/// Whether `s` is well-formed UTF-8: every byte sequence decodes to a
/// Unicode scalar value in its shortest form, surrogates excluded.
pub open spec fn is_utf8(s: Seq<u8>) -> bool
    decreases s.len(),
{
    if s.len() == 0 {
        true
    } else {
        let b0 = s[0];
        if b0 < 0x80 {
            is_utf8(s.skip(1))
        } else if 0xC2 <= b0 && b0 <= 0xDF {
            s.len() >= 2 && is_cont(s[1]) && is_utf8(s.skip(2))
        } else if b0 == 0xE0 {
            s.len() >= 3 && 0xA0 <= s[1] && s[1] <= 0xBF && is_cont(s[2]) && is_utf8(s.skip(3))
        } else if b0 == 0xED {
            s.len() >= 3 && 0x80 <= s[1] && s[1] <= 0x9F && is_cont(s[2]) && is_utf8(s.skip(3))
        } else if 0xE1 <= b0 && b0 <= 0xEF {
            s.len() >= 3 && is_cont(s[1]) && is_cont(s[2]) && is_utf8(s.skip(3))
        } else if b0 == 0xF0 {
            s.len() >= 4 && 0x90 <= s[1] && s[1] <= 0xBF && is_cont(s[2]) && is_cont(s[3])
                && is_utf8(s.skip(4))
        } else if b0 == 0xF4 {
            s.len() >= 4 && 0x80 <= s[1] && s[1] <= 0x8F && is_cont(s[2]) && is_cont(s[3])
                && is_utf8(s.skip(4))
        } else if 0xF1 <= b0 && b0 <= 0xF3 {
            s.len() >= 4 && is_cont(s[1]) && is_cont(s[2]) && is_cont(s[3]) && is_utf8(s.skip(4))
        } else {
            false
        }
    }
}

/// Executable test for `is_cont`.
fn is_cont_byte(b: u8) -> (r: bool)
    ensures
        r == is_cont(b),
{
    0x80 <= b && b < 0xC0
}

/// Checks that `buf` is well-formed UTF-8.
pub fn utf8_check(buf: &[u8]) -> (r: bool)
    ensures
        r == is_utf8(buf@),
{
    let n = buf.len();
    proof {
        assert(buf@.skip(0) =~= buf@);
    }
    let mut i: usize = 0;
    while i < n
        invariant
            i <= n == buf@.len(),
            is_utf8(buf@) == is_utf8(buf@.skip(i as int)),
        decreases n - i,
    {
        let ghost rest = buf@.skip(i as int);
        proof {
            assert(rest.len() == n - i);
            assert(forall|k: int| 0 <= k < rest.len() ==> rest[k] == buf@[i + k]);
        }
        let b0 = buf[i];
        let step: usize = if b0 < 0x80 {
            1
        } else if 0xC2 <= b0 && b0 <= 0xDF {
            if !(n - i > 1 && is_cont_byte(buf[i + 1])) {
                proof {
                    assert(!is_utf8(rest));
                }
                return false;
            }
            2
        } else if b0 == 0xE0 {
            if !(n - i > 2 && 0xA0 <= buf[i + 1] && buf[i + 1] <= 0xBF && is_cont_byte(
                buf[i + 2],
            )) {
                proof {
                    assert(!is_utf8(rest));
                }
                return false;
            }
            3
        } else if b0 == 0xED {
            if !(n - i > 2 && 0x80 <= buf[i + 1] && buf[i + 1] <= 0x9F && is_cont_byte(
                buf[i + 2],
            )) {
                proof {
                    assert(!is_utf8(rest));
                }
                return false;
            }
            3
        } else if 0xE1 <= b0 && b0 <= 0xEF {
            if !(n - i > 2 && is_cont_byte(buf[i + 1]) && is_cont_byte(buf[i + 2])) {
                proof {
                    assert(!is_utf8(rest));
                }
                return false;
            }
            3
        } else if b0 == 0xF0 {
            if !(n - i > 3 && 0x90 <= buf[i + 1] && buf[i + 1] <= 0xBF && is_cont_byte(buf[i + 2])
                && is_cont_byte(buf[i + 3])) {
                proof {
                    assert(!is_utf8(rest));
                }
                return false;
            }
            4
        } else if b0 == 0xF4 {
            if !(n - i > 3 && 0x80 <= buf[i + 1] && buf[i + 1] <= 0x8F && is_cont_byte(buf[i + 2])
                && is_cont_byte(buf[i + 3])) {
                proof {
                    assert(!is_utf8(rest));
                }
                return false;
            }
            4
        } else if 0xF1 <= b0 && b0 <= 0xF3 {
            if !(n - i > 3 && is_cont_byte(buf[i + 1]) && is_cont_byte(buf[i + 2])
                && is_cont_byte(buf[i + 3])) {
                proof {
                    assert(!is_utf8(rest));
                }
                return false;
            }
            4
        } else {
            proof {
                assert(!is_utf8(rest));
            }
            return false;
        };
        proof {
            assert(rest.skip(step as int) =~= buf@.skip(i + step));
            assert(is_utf8(rest) == is_utf8(buf@.skip(i + step)));
        }
        i = i + step;
    }
    proof {
        assert(is_utf8(buf@.skip(i as int)));
    }
    true
}

} // verus!
