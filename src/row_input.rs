//! Reading one row of numbers from a line of text: the line is split at
//! commas, each field is trimmed of white space and empty fields are dropped;
//! a field holding `/` is the quotient of its slash-separated parts, taken
//! from the left (`a/b/c` is `(a / b) / c`).
use core::ops::Div;
use vstd::prelude::*;
use vstd::std_specs::ops::DivSpec;

verus! {

/// Why a row was not read.
#[derive(Clone, Copy, Debug, PartialEq, Eq)]
pub enum RowError {
    /// The row holds a number of fields other than the expected dimension.
    WrongDimensions,
    /// A field, or a part of a fraction, is not a number.
    BadNumber,
}

impl RowError {
    /// A short description of the error.
    pub fn message(&self) -> (r: &'static str)
        ensures
            *self == RowError::WrongDimensions ==> r@ == "Wrong dimensions"@,
            *self == RowError::BadNumber ==> r@ == "Error parsing number."@,
    {
        match self {
            RowError::WrongDimensions => "Wrong dimensions",
            RowError::BadNumber => "Error parsing number.",
        }
    }
}

/// The characters with the Unicode `White_Space` property, which
/// `char::is_whitespace` and `str::trim` go by.
pub open spec fn is_space(c: char) -> bool {
    let v = c as u32;
    (9 <= v <= 13) || v == 32 || v == 0x85 || v == 0xa0 || v == 0x1680 || (0x2000 <= v <= 0x200a)
        || v == 0x2028 || v == 0x2029 || v == 0x202f || v == 0x205f || v == 0x3000
}

/// `t` without its leading white space.
pub open spec fn trim_start(t: Seq<char>) -> Seq<char>
    decreases t.len(),
{
    if t.len() > 0 && is_space(t[0]) {
        trim_start(t.drop_first())
    } else {
        t
    }
}

/// `t` without its trailing white space.
pub open spec fn trim_end(t: Seq<char>) -> Seq<char>
    decreases t.len(),
{
    if t.len() > 0 && is_space(t.last()) {
        trim_end(t.drop_last())
    } else {
        t
    }
}

/// `t` without white space at either end.
pub open spec fn trim(t: Seq<char>) -> Seq<char> {
    trim_end(trim_start(t))
}

/// The pieces of `s` between occurrences of `sep`: one more piece than there
/// are separators, some of them possibly empty.
pub open spec fn split_on(s: Seq<char>, sep: char) -> Seq<Seq<char>>
    decreases s.len(),
{
    if s.len() == 0 {
        seq![Seq::empty()]
    } else {
        let parts = split_on(s.drop_last(), sep);
        if s.last() == sep {
            parts.push(Seq::empty())
        } else {
            parts.update(parts.len() - 1, parts.last().push(s.last()))
        }
    }
}

/// The trimmed pieces that are not empty, in order.
pub open spec fn trimmed_nonempty(ps: Seq<Seq<char>>) -> Seq<Seq<char>>
    decreases ps.len(),
{
    if ps.len() == 0 {
        Seq::empty()
    } else {
        let r = trimmed_nonempty(ps.drop_last());
        let t = trim(ps.last());
        if t.len() > 0 {
            r.push(t)
        } else {
            r
        }
    }
}

/// The fields of a row: the comma-separated pieces, trimmed, without the
/// empty ones.
pub open spec fn row_fields_of(s: Seq<char>) -> Seq<Seq<char>> {
    trimmed_nonempty(split_on(s, ','))
}

/// The parts of a field: its slash-separated pieces, trimmed.
pub open spec fn fraction_parts_of(f: Seq<char>) -> Seq<Seq<char>> {
    split_on(f, '/').map_values(|p: Seq<char>| trim(p))
}

/// The quotient of the values taken from the left: `xs[0] / xs[1] / ...`.
pub open spec fn left_quotient<T: Div<Output = T>>(xs: Seq<T>) -> T
    recommends
        xs.len() >= 1,
    decreases xs.len(),
{
    if xs.len() <= 1 {
        xs[0]
    } else {
        left_quotient(xs.drop_last()).div_spec(xs.last())
    }
}

/// `v` is the quotient, taken from the left, of one value for each part of the
/// field `f`.
pub open spec fn quotient_of_parts<T: Div<Output = T>>(v: T, f: Seq<char>) -> bool {
    exists|vs: Seq<T>| vs.len() == fraction_parts_of(f).len() && v == left_quotient(vs)
}

/// The views of a sequence of character vectors.
pub open spec fn views(v: Seq<Vec<char>>) -> Seq<Seq<char>> {
    v.map_values(|x: Vec<char>| x@)
}

/// The characters of `s`, in order.
pub fn chars_of(s: &str) -> (r: Vec<char>)
    ensures
        r@ == s@,
{
    let mut out: Vec<char> = Vec::new();
    for c in it: s.chars()
        invariant
            out@ == it.history(),
    {
        out.push(c);
    }
    proof {
        vstd::string::axiom_spec_iter(s);
    }
    out
}

proof fn lemma_split_nonempty(s: Seq<char>, sep: char)
    ensures
        split_on(s, sep).len() >= 1,
    decreases s.len(),
{
    if s.len() > 0 {
        lemma_split_nonempty(s.drop_last(), sep);
    }
}

/// Whether `c` is white space.
pub fn is_space_char(c: char) -> (r: bool)
    ensures
        r == is_space(c),
{
    let v = c as u32;
    (9 <= v && v <= 13) || v == 32 || v == 0x85 || v == 0xa0 || v == 0x1680 || (0x2000 <= v && v
        <= 0x200a) || v == 0x2028 || v == 0x2029 || v == 0x202f || v == 0x205f || v == 0x3000
}

/// `t` without white space at either end.
pub fn trim_chars(t: &Vec<char>) -> (r: Vec<char>)
    ensures
        r@ == trim(t@),
{
    let len = t.len();
    let mut lo: usize = 0;
    assert(t@.subrange(0, len as int) =~= t@);
    while lo < len && is_space_char(t[lo])
        invariant
            lo <= len,
            len == t@.len(),
            trim_start(t@) == trim_start(t@.subrange(lo as int, len as int)),
        decreases len - lo,
    {
        assert(t@.subrange(lo as int, len as int).drop_first() =~= t@.subrange(lo + 1, len as int));
        lo += 1;
    }
    let ghost u = t@.subrange(lo as int, len as int);
    assert(trim_start(t@) == u);
    let mut hi: usize = len;
    while hi > lo && is_space_char(t[hi - 1])
        invariant
            lo <= hi <= len,
            len == t@.len(),
            u == t@.subrange(lo as int, len as int),
            trim_end(u) == trim_end(t@.subrange(lo as int, hi as int)),
        decreases hi - lo,
    {
        assert(t@.subrange(lo as int, hi as int).drop_last() =~= t@.subrange(lo as int, hi - 1));
        hi -= 1;
    }
    let mut out: Vec<char> = Vec::new();
    let mut k = lo;
    while k < hi
        invariant
            lo <= k <= hi,
            hi <= len,
            len == t@.len(),
            out@ == t@.subrange(lo as int, k as int),
        decreases hi - k,
    {
        out.push(t[k]);
        assert(out@ =~= t@.subrange(lo as int, k + 1));
        k += 1;
    }
    out
}

/// The pieces of `s` between occurrences of `sep`.
pub fn split_chars(s: &Vec<char>, sep: char) -> (r: Vec<Vec<char>>)
    ensures
        views(r@) == split_on(s@, sep),
{
    let mut done: Vec<Vec<char>> = Vec::new();
    let mut cur: Vec<char> = Vec::new();
    let mut i: usize = 0;
    assert(s@.subrange(0, 0) =~= Seq::<char>::empty());
    assert(views(done@).push(cur@) =~= split_on(s@.subrange(0, 0), sep));
    while i < s.len()
        invariant
            i <= s@.len(),
            views(done@).push(cur@) == split_on(s@.subrange(0, i as int), sep),
        decreases s@.len() - i,
    {
        let c = s[i];
        let ghost pre = s@.subrange(0, i as int);
        let ghost next = s@.subrange(0, i + 1);
        assert(next.drop_last() =~= pre);
        assert(next.last() == c);
        if c == sep {
            let finished = cur;
            done.push(finished);
            cur = Vec::new();
            assert(views(done@) =~= views(done@.drop_last()).push(finished@));
            assert(views(done@).push(cur@) =~= split_on(next, sep));
        } else {
            let ghost old_cur = cur@;
            cur.push(c);
            assert(views(done@).push(cur@) =~= views(done@).push(old_cur).update(
                views(done@).push(old_cur).len() - 1,
                old_cur.push(c),
            ));
        }
        i += 1;
    }
    let ghost before = done@;
    done.push(cur);
    assert(views(done@) =~= views(before).push(done@.last()@));
    assert(s@.subrange(0, s@.len() as int) =~= s@);
    done
}

/// The fields of a row: its comma-separated pieces, trimmed, without the empty
/// ones.
pub fn row_fields(line: &Vec<char>) -> (r: Vec<Vec<char>>)
    ensures
        views(r@) == row_fields_of(line@),
{
    let pieces = split_chars(line, ',');
    let mut out: Vec<Vec<char>> = Vec::new();
    let mut i: usize = 0;
    assert(views(pieces@).subrange(0, 0) =~= Seq::<Seq<char>>::empty());
    while i < pieces.len()
        invariant
            i <= pieces@.len(),
            views(out@) == trimmed_nonempty(views(pieces@).subrange(0, i as int)),
        decreases pieces@.len() - i,
    {
        let t = trim_chars(&pieces[i]);
        let ghost next = views(pieces@).subrange(0, i + 1);
        assert(next.drop_last() =~= views(pieces@).subrange(0, i as int));
        assert(next.last() == pieces@[i as int]@);
        if t.len() > 0 {
            let ghost before = out@;
            out.push(t);
            assert(views(out@) =~= views(before).push(t@));
        }
        i += 1;
    }
    assert(views(pieces@).subrange(0, pieces@.len() as int) =~= views(pieces@));
    out
}

/// The parts of a field: its slash-separated pieces, trimmed.
pub fn fraction_parts(field: &Vec<char>) -> (r: Vec<Vec<char>>)
    ensures
        views(r@) == fraction_parts_of(field@),
{
    let pieces = split_chars(field, '/');
    let mut out: Vec<Vec<char>> = Vec::new();
    let mut i: usize = 0;
    while i < pieces.len()
        invariant
            i <= pieces@.len(),
            out@.len() == i,
            forall|k: int| 0 <= k < i ==> (#[trigger] out@[k])@ == trim(pieces@[k]@),
        decreases pieces@.len() - i,
    {
        let t = trim_chars(&pieces[i]);
        out.push(t);
        i += 1;
    }
    assert(views(out@) =~= fraction_parts_of(field@)) by {
        assert(views(pieces@) == split_on(field@, '/'));
        assert forall|k: int| 0 <= k < out@.len() implies views(out@)[k] == fraction_parts_of(
            field@,
        )[k] by {
            assert(views(pieces@)[k] == pieces@[k]@);
        }
    }
    out
}

/// The quotient of `xs` taken from the left: `xs[0] / xs[1] / ...`.
pub fn quotient_of<T: Copy + Div<Output = T>>(xs: &Vec<T>) -> (r: T)
    requires
        xs@.len() >= 1,
        forall|a: T, b: T| #[trigger] a.div_req(b),
    ensures
        T::obeys_div_spec() ==> r == left_quotient(xs@),
{
    let mut acc = xs[0];
    let mut i: usize = 1;
    assert(xs@.subrange(0, 1).len() == 1);
    while i < xs.len()
        invariant
            1 <= i <= xs@.len(),
            forall|a: T, b: T| #[trigger] a.div_req(b),
            T::obeys_div_spec() ==> acc == left_quotient(xs@.subrange(0, i as int)),
        decreases xs@.len() - i,
    {
        assert(xs@.subrange(0, i + 1).drop_last() =~= xs@.subrange(0, i as int));
        acc = acc / xs[i];
        i += 1;
    }
    assert(xs@.subrange(0, xs@.len() as int) =~= xs@);
    acc
}

/// Relies on `str::parse`: reads a number from the characters of `text`,
/// `None` where they do not spell one.
#[verifier::external_body]
fn parse_number<T: core::str::FromStr>(text: &Vec<char>) -> (r: Option<T>) {
    text.iter().collect::<String>().parse::<T>().ok()
}

/// The value of one field: the quotient of its parts, taken from the left,
/// or `None` where a part is not a number.
pub fn parse_field<T: Copy + core::str::FromStr + Div<Output = T>>(field: &Vec<char>) -> (r: Option<T>)
    requires
        forall|a: T, b: T| #[trigger] a.div_req(b),
    ensures
        T::obeys_div_spec() ==> (r matches Some(v) ==> quotient_of_parts(v, field@)),
{
    let parts = fraction_parts(field);
    let mut values: Vec<T> = Vec::new();
    let mut i: usize = 0;
    while i < parts.len()
        invariant
            i <= parts@.len(),
            values@.len() == i,
        decreases parts@.len() - i,
    {
        match parse_number(&parts[i]) {
            Some(v) => values.push(v),
            None => {
                return None;
            },
        }
        i += 1;
    }
    proof {
        lemma_split_nonempty(field@, '/');
        assert(views(parts@).len() == parts@.len());
    }
    let v = quotient_of(&values);
    assert(T::obeys_div_spec() ==> quotient_of_parts(v, field@)) by {
        if T::obeys_div_spec() {
            assert(values@.len() == fraction_parts_of(field@).len() && v == left_quotient(values@));
        }
    }
    Some(v)
}

/// Reads one row from `buffer` and appends its values to `raw_matrix`.
///
/// With `dimension` zero any number of fields is taken; otherwise a row with
/// another number of fields is refused. Returns the number of fields read.
/// On an error `raw_matrix` is left as it was.
pub fn parse_row_input<T: Copy + core::str::FromStr + Div<Output = T>>(
    raw_matrix: &mut Vec<T>,
    buffer: &str,
    dimension: usize,
) -> (r: Result<usize, RowError>)
    requires
        forall|a: T, b: T| #[trigger] a.div_req(b),
    ensures
        dimension != 0 && row_fields_of(buffer@).len() != dimension ==> r == Err::<usize, RowError>(
            RowError::WrongDimensions,
        ),
        dimension == 0 || row_fields_of(buffer@).len() == dimension ==> r is Ok || r == Err::<
            usize,
            RowError,
        >(RowError::BadNumber),
        r matches Ok(k) ==> k == row_fields_of(buffer@).len(),
        r is Ok ==> final(raw_matrix)@.len() == old(raw_matrix)@.len() + row_fields_of(buffer@).len()
            && final(raw_matrix)@.subrange(0, old(raw_matrix)@.len() as int) == old(raw_matrix)@,
        r is Err ==> final(raw_matrix)@ == old(raw_matrix)@,
        T::obeys_div_spec() && r is Ok ==> forall|k: int|
            0 <= k < row_fields_of(buffer@).len() ==> quotient_of_parts(
                #[trigger] final(raw_matrix)@[old(raw_matrix)@.len() + k],
                row_fields_of(buffer@)[k],
            ),
{
    let line = chars_of(buffer);
    let numbers = row_fields(&line);
    let length = numbers.len();
    assert(length == views(numbers@).len());
    if dimension != 0 && length != dimension {
        return Err(RowError::WrongDimensions);
    }
    let mut values: Vec<T> = Vec::new();
    let mut i: usize = 0;
    while i < length
        invariant
            i <= length,
            length == numbers@.len(),
            values@.len() == i,
            length == row_fields_of(buffer@).len(),
            dimension == 0 || length == dimension,
            raw_matrix@ == old(raw_matrix)@,
            views(numbers@) == row_fields_of(buffer@),
            T::obeys_div_spec() ==> forall|q: int|
                0 <= q < i ==> quotient_of_parts(#[trigger] values@[q], row_fields_of(buffer@)[q]),
            forall|a: T, b: T| #[trigger] a.div_req(b),
        decreases length - i,
    {
        assert(views(numbers@)[i as int] == numbers@[i as int]@);
        match parse_field(&numbers[i]) {
            Some(v) => values.push(v),
            None => {
                return Err(RowError::BadNumber);
            },
        }
        i += 1;
    }
    let ghost before = raw_matrix@;
    let mut k: usize = 0;
    while k < length
        invariant
            k <= length,
            length == values@.len(),
            raw_matrix@.len() == before.len() + k,
            raw_matrix@.subrange(0, before.len() as int) == before,
            before == old(raw_matrix)@,
            length == row_fields_of(buffer@).len(),
            forall|q: int| 0 <= q < k ==> #[trigger] raw_matrix@[before.len() + q] == values@[q],
            T::obeys_div_spec() ==> forall|q: int|
                0 <= q < length ==> quotient_of_parts(#[trigger] values@[q], row_fields_of(buffer@)[q]),
        decreases length - k,
    {
        let ghost prev = raw_matrix@;
        raw_matrix.push(values[k]);
        assert(raw_matrix@.subrange(0, before.len() as int) =~= prev.subrange(0, before.len() as int));
        k += 1;
    }
    Ok(length)
}

} // verus!
