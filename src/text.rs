//! The four-line text form of a test instance: the size `n`, the `n * n`
//! entries of `A` row by row, the `n` entries of `b`, and the `n` integers of
//! the expected solution. Entries of `A` and `b` are kept as the tokens that
//! spell them; the caller turns them into numbers.

use vstd::prelude::*;
use crate::decimal::{
    decimal, signed_decimal, natural_value, integer_value, is_digit, all_digits,
    lemma_decimal_round_trip, lemma_signed_decimal_round_trip, parse_natural, parse_integer,
    render_natural, render_integer,
};

verus! {

pub const NEWLINE: u8 = 10;

pub const SPACE: u8 = 32;

/// The pieces of `s` between occurrences of `sep`; never empty.
pub open spec fn split(s: Seq<u8>, sep: u8) -> Seq<Seq<u8>>
    decreases s.len(),
{
    if s.len() == 0 {
        seq![Seq::<u8>::empty()]
    } else {
        let prev = split(s.drop_last(), sep);
        if s.last() == sep {
            prev.push(Seq::<u8>::empty())
        } else {
            prev.update(prev.len() - 1, prev.last().push(s.last()))
        }
    }
}

/// The pieces `ts` with `sep` between each two.
pub open spec fn join(ts: Seq<Seq<u8>>, sep: u8) -> Seq<u8>
    decreases ts.len(),
{
    if ts.len() == 0 {
        Seq::<u8>::empty()
    } else if ts.len() == 1 {
        ts[0]
    } else {
        join(ts.drop_last(), sep).push(sep) + ts.last()
    }
}

pub open spec fn lacks(s: Seq<u8>, c: u8) -> bool {
    forall|i: int| 0 <= i < s.len() ==> #[trigger] s[i] != c
}

/// ASCII whitespace: space, tab, line feed, form feed, carriage return.
pub open spec fn is_space(c: u8) -> bool {
    c == 32u8 || c == 9u8 || c == 10u8 || c == 12u8 || c == 13u8
}

pub open spec fn no_space(t: Seq<u8>) -> bool {
    forall|i: int| 0 <= i < t.len() ==> !is_space(#[trigger] t[i])
}

/// A token that can stand in a line: not empty, no whitespace.
pub open spec fn is_token(t: Seq<u8>) -> bool {
    t.len() > 0 && no_space(t)
}

/// The words of `s`: its maximal non-empty runs of non-whitespace bytes.
pub open spec fn words(s: Seq<u8>) -> Seq<Seq<u8>>
    decreases s.len(),
{
    if s.len() == 0 {
        Seq::<Seq<u8>>::empty()
    } else {
        let prev = words(s.drop_last());
        if is_space(s.last()) {
            prev
        } else if s.len() >= 2 && !is_space(s[s.len() - 2]) {
            prev.update(prev.len() - 1, prev.last().push(s.last()))
        } else {
            prev.push(seq![s.last()])
        }
    }
}

pub open spec fn views(v: Seq<Vec<u8>>) -> Seq<Seq<u8>> {
    v.map_values(|t: Vec<u8>| t@)
}

/// A test instance as text: the entries of `A` and `b` as tokens, the
/// expected solution as integers.
pub struct SystemText {
    pub n: usize,
    pub a: Vec<Vec<u8>>,
    pub b: Vec<Vec<u8>>,
    pub x: Vec<i64>,
}

pub ghost struct SystemModel {
    pub n: nat,
    pub a: Seq<Seq<u8>>,
    pub b: Seq<Seq<u8>>,
    pub x: Seq<int>,
}

impl View for SystemText {
    type V = SystemModel;

    open spec fn view(&self) -> SystemModel {
        SystemModel {
            n: self.n as nat,
            a: views(self.a@),
            b: views(self.b@),
            x: self.x@.map_values(|v: i64| v as int),
        }
    }
}

impl SystemModel {
    /// Sizes agree, `n` is positive, every entry is a token.
    pub open spec fn well_formed(self) -> bool {
        &&& 0 < self.n <= usize::MAX
        &&& self.a.len() == self.n * self.n
        &&& self.b.len() == self.n
        &&& self.x.len() == self.n
        &&& forall|i: int| 0 <= i < self.a.len() ==> is_token(#[trigger] self.a[i])
        &&& forall|i: int| 0 <= i < self.b.len() ==> is_token(#[trigger] self.b[i])
        &&& forall|i: int| 0 <= i < self.x.len() ==> i64::MIN <= #[trigger] self.x[i] <= i64::MAX
    }
}

#[derive(Clone, Copy, Debug, PartialEq, Eq, Structural)]
pub enum FormatError {
    /// The text is not four lines, each ended by a line break; the last may
    /// lack it where it is not empty.
    LineCount,
    /// The first line is not a positive number that fits a `usize`.
    Dimension,
    /// A line holds a number of entries other than `n * n`, `n`, `n`.
    EntryCount,
    /// An entry of the solution is no `i64`.
    Entry,
}

/// The text of a test instance.
pub open spec fn render(m: SystemModel) -> Seq<u8> {
    join(
        seq![
            decimal(m.n),
            join(m.a, SPACE),
            join(m.b, SPACE),
            join(m.x.map_values(|v: int| signed_decimal(v)), SPACE),
            Seq::<u8>::empty(),
        ],
        NEWLINE,
    )
}

pub open spec fn all_integers(ts: Seq<Seq<u8>>) -> bool {
    forall|i: int|
        0 <= i < ts.len() ==> (#[trigger] integer_value(ts[i])) is Some
            && i64::MIN <= integer_value(ts[i])->0 <= i64::MAX
}

/// What reading `s` gives: the instance, or the first check that fails.
pub open spec fn parse(s: Seq<u8>) -> Result<SystemModel, FormatError> {
    let lines = split(s, NEWLINE);
    if !((lines.len() == 4 && lines[3].len() > 0) || (lines.len() == 5 && lines[4].len() == 0)) {
        Err(FormatError::LineCount)
    } else {
        match natural_value(lines[0]) {
            Some(n) => {
                if n == 0 || n > usize::MAX {
                    Err(FormatError::Dimension)
                } else {
                    let a = words(lines[1]);
                    let b = words(lines[2]);
                    let x = words(lines[3]);
                    if a.len() != n * n || b.len() != n || x.len() != n {
                        Err(FormatError::EntryCount)
                    } else if !all_integers(x) {
                        Err(FormatError::Entry)
                    } else {
                        Ok(
                            SystemModel {
                                n,
                                a,
                                b,
                                x: x.map_values(|t: Seq<u8>| integer_value(t)->0),
                            },
                        )
                    }
                }
            },
            None => Err(FormatError::Dimension),
        }
    }
}

proof fn lemma_split_lacking(t: Seq<u8>, sep: u8)
    requires
        lacks(t, sep),
    ensures
        split(t, sep) == seq![t],
    decreases t.len(),
{
    if t.len() > 0 {
        lemma_split_lacking(t.drop_last(), sep);
        assert(t.drop_last().push(t.last()) =~= t);
        assert(split(t, sep) =~= seq![t]);
    } else {
        assert(t =~= Seq::<u8>::empty());
    }
}

proof fn lemma_split_after_sep(p: Seq<u8>, t: Seq<u8>, sep: u8)
    requires
        lacks(t, sep),
    ensures
        split(p.push(sep) + t, sep) == split(p, sep).push(t),
    decreases t.len(),
{
    let s = p.push(sep) + t;
    if t.len() == 0 {
        assert(s =~= p.push(sep));
        assert(s.drop_last() =~= p);
        assert(t =~= Seq::<u8>::empty());
    } else {
        lemma_split_after_sep(p, t.drop_last(), sep);
        assert(s.drop_last() =~= p.push(sep) + t.drop_last());
        assert(s.last() == t.last());
        assert(t.drop_last().push(t.last()) =~= t);
        assert(split(s, sep) =~= split(p, sep).push(t));
    }
}

/// Splitting the pieces joined by `sep` gives the pieces back, when none
/// of them holds `sep`.
pub proof fn lemma_split_join(ts: Seq<Seq<u8>>, sep: u8)
    requires
        ts.len() > 0,
        forall|i: int| 0 <= i < ts.len() ==> lacks(#[trigger] ts[i], sep),
    ensures
        split(join(ts, sep), sep) == ts,
    decreases ts.len(),
{
    if ts.len() == 1 {
        lemma_split_lacking(ts[0], sep);
        assert(seq![ts[0]] =~= ts);
    } else {
        let init = ts.drop_last();
        assert forall|i: int| 0 <= i < init.len() implies lacks(#[trigger] init[i], sep) by {
            assert(init[i] == ts[i]);
        }
        lemma_split_join(init, sep);
        lemma_split_after_sep(join(init, sep), ts.last(), sep);
        assert(init.push(ts.last()) =~= ts);
    }
}

proof fn lemma_join_lacks(ts: Seq<Seq<u8>>, sep: u8, c: u8)
    requires
        sep != c,
        forall|i: int| 0 <= i < ts.len() ==> lacks(#[trigger] ts[i], c),
    ensures
        lacks(join(ts, sep), c),
    decreases ts.len(),
{
    if ts.len() > 1 {
        let init = ts.drop_last();
        assert forall|i: int| 0 <= i < init.len() implies lacks(#[trigger] init[i], c) by {
            assert(init[i] == ts[i]);
        }
        lemma_join_lacks(init, sep, c);
        let j = join(ts, sep);
        let l = join(init, sep).len();
        assert forall|i: int| 0 <= i < j.len() implies #[trigger] j[i] != c by {
            if i < l {
                assert(j[i] == join(init, sep)[i]);
            } else if i > l {
                assert(j[i] == ts.last()[i - l - 1]);
            }
        }
    } else if ts.len() == 1 {
        assert(lacks(ts[0], c));
    }
}

proof fn lemma_digits_lack(s: Seq<u8>, c: u8)
    requires
        all_digits(s),
        !is_digit(c),
    ensures
        lacks(s, c),
{
    assert forall|i: int| 0 <= i < s.len() implies #[trigger] s[i] != c by {
        assert(is_digit(s[i]));
    }
}

proof fn lemma_token_lacks_newline(t: Seq<u8>)
    requires
        is_token(t),
    ensures
        lacks(t, NEWLINE),
{
    assert forall|i: int| 0 <= i < t.len() implies #[trigger] t[i] != NEWLINE by {
        assert(!is_space(t[i]));
    }
}

proof fn lemma_signed_decimal_token(v: int)
    ensures
        is_token(signed_decimal(v)),
{
    let s = signed_decimal(v);
    if v < 0 {
        lemma_decimal_round_trip((-v) as nat);
        assert forall|i: int| 0 <= i < s.len() implies !is_space(#[trigger] s[i]) by {
            if i > 0 {
                assert(s[i] == decimal((-v) as nat)[i - 1]);
                assert(is_digit(decimal((-v) as nat)[i - 1]));
            }
        }
    } else {
        lemma_decimal_round_trip(v as nat);
        assert forall|i: int| 0 <= i < s.len() implies !is_space(#[trigger] s[i]) by {
            assert(is_digit(s[i]));
        }
    }
}

proof fn lemma_words_token(t: Seq<u8>)
    requires
        is_token(t),
    ensures
        words(t) == seq![t],
    decreases t.len(),
{
    if t.len() == 1 {
        assert(t.drop_last() =~= Seq::<u8>::empty());
        assert(words(t.drop_last()) == Seq::<Seq<u8>>::empty());
        assert(!is_space(t.last()));
        assert(words(t) == Seq::<Seq<u8>>::empty().push(seq![t.last()]));
        assert(seq![t.last()] =~= t);
        assert(words(t) =~= seq![t]);
    } else {
        let init = t.drop_last();
        assert(!is_space(t[t.len() - 2]));
        assert(!is_space(t.last()));
        assert forall|i: int| 0 <= i < init.len() implies !is_space(#[trigger] init[i]) by {
            assert(init[i] == t[i]);
        }
        lemma_words_token(init);
        assert(init.push(t.last()) =~= t);
        assert(words(t) =~= seq![t]);
    }
}

proof fn lemma_words_after_space(p: Seq<u8>, t: Seq<u8>)
    requires
        is_token(t),
    ensures
        words(p.push(SPACE) + t) == words(p).push(t),
    decreases t.len(),
{
    let s = p.push(SPACE) + t;
    assert(s.drop_last() =~= p.push(SPACE) + t.drop_last());
    assert(s.last() == t.last());
    assert(!is_space(t.last()));
    if t.len() == 1 {
        assert(p.push(SPACE) + t.drop_last() =~= p.push(SPACE));
        assert(p.push(SPACE).drop_last() =~= p);
        assert(s[s.len() - 2] == SPACE);
        assert(words(p.push(SPACE)) == words(p));
        assert(words(s) == words(s.drop_last()).push(seq![s.last()]));
        assert(seq![t.last()] =~= t);
    } else {
        let init = t.drop_last();
        assert forall|i: int| 0 <= i < init.len() implies !is_space(#[trigger] init[i]) by {
            assert(init[i] == t[i]);
        }
        lemma_words_after_space(p, init);
        assert(s[s.len() - 2] == t[t.len() - 2]);
        assert(!is_space(t[t.len() - 2]));
        assert(init.push(t.last()) =~= t);
        assert(words(s) =~= words(p).push(t));
    }
}

/// The words of tokens joined by single spaces are the tokens.
pub proof fn lemma_words_join(ts: Seq<Seq<u8>>)
    requires
        forall|i: int| 0 <= i < ts.len() ==> is_token(#[trigger] ts[i]),
    ensures
        words(join(ts, SPACE)) == ts,
    decreases ts.len(),
{
    if ts.len() == 0 {
        assert(ts =~= Seq::<Seq<u8>>::empty());
    } else if ts.len() == 1 {
        lemma_words_token(ts[0]);
        assert(seq![ts[0]] =~= ts);
    } else {
        let init = ts.drop_last();
        assert forall|i: int| 0 <= i < init.len() implies is_token(#[trigger] init[i]) by {
            assert(init[i] == ts[i]);
        }
        lemma_words_join(init);
        lemma_words_after_space(join(init, SPACE), ts.last());
        assert(init.push(ts.last()) =~= ts);
    }
}

/// Reading the text of a well-formed instance gives that instance back.
pub proof fn lemma_parse_render(m: SystemModel)
    requires
        m.well_formed(),
    ensures
        parse(render(m)) == Ok::<SystemModel, FormatError>(m),
{
    let xd = m.x.map_values(|v: int| signed_decimal(v));
    let lines = seq![
        decimal(m.n),
        join(m.a, SPACE),
        join(m.b, SPACE),
        join(xd, SPACE),
        Seq::<u8>::empty(),
    ];
    lemma_decimal_round_trip(m.n);
    lemma_digits_lack(decimal(m.n), NEWLINE);
    assert forall|i: int| 0 <= i < xd.len() implies is_token(#[trigger] xd[i]) by {
        lemma_signed_decimal_token(m.x[i]);
    }
    assert forall|i: int| 0 <= i < m.a.len() implies lacks(#[trigger] m.a[i], NEWLINE) by {
        lemma_token_lacks_newline(m.a[i]);
    }
    assert forall|i: int| 0 <= i < m.b.len() implies lacks(#[trigger] m.b[i], NEWLINE) by {
        lemma_token_lacks_newline(m.b[i]);
    }
    assert forall|i: int| 0 <= i < xd.len() implies lacks(#[trigger] xd[i], NEWLINE) by {
        lemma_token_lacks_newline(xd[i]);
    }
    lemma_join_lacks(m.a, SPACE, NEWLINE);
    lemma_join_lacks(m.b, SPACE, NEWLINE);
    lemma_join_lacks(xd, SPACE, NEWLINE);
    assert forall|i: int| 0 <= i < lines.len() implies lacks(#[trigger] lines[i], NEWLINE) by {
        if i == 4 {
            assert(lines[i] =~= Seq::<u8>::empty());
        }
    }
    lemma_split_join(lines, NEWLINE);
    assert(m.n * m.n >= 1) by (nonlinear_arith)
        requires
            m.n >= 1,
    ;
    lemma_words_join(m.a);
    lemma_words_join(m.b);
    lemma_words_join(xd);
    assert forall|i: int| 0 <= i < xd.len() implies (#[trigger] integer_value(xd[i])) is Some
        && i64::MIN <= integer_value(xd[i])->0 <= i64::MAX by {
        lemma_signed_decimal_round_trip(m.x[i]);
    }
    assert forall|i: int| 0 <= i < xd.len() implies (#[trigger] xd[i]).len() > 0 by {
        lemma_signed_decimal_round_trip(m.x[i]);
    }
    assert(xd.map_values(|t: Seq<u8>| integer_value(t)->0) =~= m.x) by {
        assert forall|i: int| 0 <= i < xd.len() implies integer_value(#[trigger] xd[i])->0
            == m.x[i] by {
            lemma_signed_decimal_round_trip(m.x[i]);
        }
    }
}

/// Splits `s` at each `sep`.
pub fn split_bytes(s: &[u8], sep: u8) -> (r: Vec<Vec<u8>>)
    ensures
        views(r@) == split(s@, sep),
{
    let mut parts: Vec<Vec<u8>> = Vec::new();
    let mut cur: Vec<u8> = Vec::new();
    let mut i: usize = 0;
    assert(s@.subrange(0, 0) =~= Seq::<u8>::empty());
    assert(views(parts@).push(cur@) =~= seq![Seq::<u8>::empty()]);
    while i < s.len()
        invariant
            i <= s@.len(),
            views(parts@).push(cur@) == split(s@.subrange(0, i as int), sep),
        decreases s@.len() - i,
    {
        let ghost pre = s@.subrange(0, i + 1);
        let ghost old_parts = parts@;
        let ghost old_cur = cur@;
        assert(pre.drop_last() =~= s@.subrange(0, i as int));
        let c = s[i];
        if c == sep {
            parts.push(cur);
            cur = Vec::new();
            assert(views(parts@) =~= views(old_parts).push(old_cur));
            assert(views(parts@).push(cur@) =~= split(pre, sep));
        } else {
            cur.push(c);
            assert(views(parts@).push(cur@) =~= split(pre, sep));
        }
        i = i + 1;
    }
    let ghost old_parts = parts@;
    assert(s@.subrange(0, i as int) =~= s@);
    parts.push(cur);
    assert(views(parts@) =~= views(old_parts).push(cur@));
    parts
}

/// The words of `s`, as the caller's `split_whitespace` would give them
/// for ASCII text.
pub fn split_words(s: &[u8]) -> (r: Vec<Vec<u8>>)
    ensures
        views(r@) == words(s@),
{
    let mut parts: Vec<Vec<u8>> = Vec::new();
    let mut cur: Vec<u8> = Vec::new();
    let mut i: usize = 0;
    assert(s@.subrange(0, 0) =~= Seq::<u8>::empty());
    while i < s.len()
        invariant
            i <= s@.len(),
            cur@.len() > 0 <==> (i > 0 && !is_space(s@[i - 1])),
            cur@.len() == 0 ==> views(parts@) == words(s@.subrange(0, i as int)),
            cur@.len() > 0 ==> views(parts@).push(cur@) == words(s@.subrange(0, i as int)),
        decreases s@.len() - i,
    {
        let ghost pre = s@.subrange(0, i + 1);
        let ghost old_parts = parts@;
        let ghost old_cur = cur@;
        assert(pre.drop_last() =~= s@.subrange(0, i as int));
        assert(pre.last() == s@[i as int]);
        if i > 0 {
            assert(pre[pre.len() - 2] == s@[i - 1]);
        }
        let c = s[i];
        if c == 32u8 || c == 9u8 || c == 10u8 || c == 12u8 || c == 13u8 {
            if cur.len() > 0 {
                parts.push(cur);
                cur = Vec::new();
                assert(views(parts@) =~= views(old_parts).push(old_cur));
            }
        } else {
            cur.push(c);
            proof {
                if old_cur.len() > 0 {
                    assert(views(parts@).push(cur@) =~= words(pre));
                } else {
                    assert(cur@ =~= seq![c]);
                    assert(views(parts@).push(cur@) =~= words(pre));
                }
            }
        }
        i = i + 1;
    }
    assert(s@.subrange(0, i as int) =~= s@);
    if cur.len() > 0 {
        let ghost old_parts = parts@;
        parts.push(cur);
        assert(views(parts@) =~= views(old_parts).push(cur@));
    }
    parts
}

fn append_bytes(out: &mut Vec<u8>, t: &[u8])
    ensures
        final(out)@ == old(out)@ + t@,
{
    let mut k: usize = 0;
    while k < t.len()
        invariant
            k <= t@.len(),
            out@ == old(out)@ + t@.subrange(0, k as int),
        decreases t@.len() - k,
    {
        out.push(t[k]);
        k = k + 1;
        assert(out@ =~= old(out)@ + t@.subrange(0, k as int));
    }
    assert(t@.subrange(0, k as int) =~= t@);
}

/// Appends the pieces `ts`, with `sep` between each two, to `out`.
pub fn join_into(out: &mut Vec<u8>, ts: &Vec<Vec<u8>>, sep: u8)
    ensures
        final(out)@ == old(out)@ + join(views(ts@), sep),
{
    let ghost q = views(ts@);
    let mut k: usize = 0;
    assert(q.subrange(0, 0) =~= Seq::<Seq<u8>>::empty());
    assert(out@ =~= old(out)@ + join(q.subrange(0, 0), sep));
    while k < ts.len()
        invariant
            k <= ts@.len(),
            q == views(ts@),
            out@ == old(out)@ + join(q.subrange(0, k as int), sep),
        decreases ts@.len() - k,
    {
        let ghost before = out@;
        let ghost next = q.subrange(0, k + 1);
        if k > 0 {
            out.push(sep);
        }
        append_bytes(out, ts[k].as_slice());
        assert(q[k as int] == ts@[k as int]@);
        if k > 0 {
            assert(next.drop_last() =~= q.subrange(0, k as int));
            assert(join(next, sep) == join(q.subrange(0, k as int), sep).push(sep) + q[k as int]);
        } else {
            assert(join(q.subrange(0, 0), sep) =~= Seq::<u8>::empty());
            assert(join(next, sep) == q[0]);
        }
        k = k + 1;
        assert(out@ =~= old(out)@ + join(q.subrange(0, k as int), sep));
    }
    assert(q.subrange(0, k as int) =~= q);
}

/// The text of a test instance: four lines, each ended by a line break.
pub fn serialize_system(t: &SystemText) -> (r: Vec<u8>)
    ensures
        r@ == render(t@),
{
    let mut xs: Vec<Vec<u8>> = Vec::new();
    let mut k: usize = 0;
    while k < t.x.len()
        invariant
            k <= t.x@.len(),
            views(xs@) == t.x@.subrange(0, k as int).map_values(
                |v: i64| signed_decimal(v as int),
            ),
        decreases t.x@.len() - k,
    {
        let ghost prev = xs@;
        let d = render_integer(t.x[k]);
        xs.push(d);
        assert(views(xs@) =~= views(prev).push(signed_decimal(t.x@[k as int] as int)));
        assert(t.x@.subrange(0, k + 1) =~= t.x@.subrange(0, k as int).push(t.x@[k as int]));
        k = k + 1;
        assert(views(xs@) =~= t.x@.subrange(0, k as int).map_values(
            |v: i64| signed_decimal(v as int),
        ));
    }
    assert(views(xs@) =~= t@.x.map_values(|v: int| signed_decimal(v)));
    let mut lines: Vec<Vec<u8>> = Vec::new();
    lines.push(render_natural(t.n as u64));
    let mut line: Vec<u8> = Vec::new();
    join_into(&mut line, &t.a, SPACE);
    lines.push(line);
    let mut line: Vec<u8> = Vec::new();
    join_into(&mut line, &t.b, SPACE);
    lines.push(line);
    let mut line: Vec<u8> = Vec::new();
    join_into(&mut line, &xs, SPACE);
    lines.push(line);
    lines.push(Vec::new());
    assert(views(lines@) =~= seq![
        decimal(t@.n),
        join(t@.a, SPACE),
        join(t@.b, SPACE),
        join(t@.x.map_values(|v: int| signed_decimal(v)), SPACE),
        Seq::<u8>::empty(),
    ]);
    let mut r: Vec<u8> = Vec::new();
    join_into(&mut r, &lines, NEWLINE);
    assert(r@ =~= render(t@));
    r
}

/// Reads the text of a test instance.
pub fn deserialize_system(s: &[u8]) -> (r: Result<SystemText, FormatError>)
    ensures
        match r {
            Ok(t) => parse(s@) == Ok::<SystemModel, FormatError>(t@),
            Err(e) => parse(s@) == Err::<SystemModel, FormatError>(e),
        },
{
    let lines = split_bytes(s, NEWLINE);
    let ghost ls = split(s@, NEWLINE);
    if !((lines.len() == 4 && lines[3].len() > 0) || (lines.len() == 5 && lines[4].len() == 0)) {
        return Err(FormatError::LineCount);
    }
    assert(forall|i: int| 0 <= i < lines@.len() ==> #[trigger] ls[i] == lines@[i]@);
    let n = match parse_natural(lines[0].as_slice()) {
        Some(n) => n,
        None => {
            return Err(FormatError::Dimension);
        },
    };
    if n == 0 {
        return Err(FormatError::Dimension);
    }
    let a = split_words(lines[1].as_slice());
    let b = split_words(lines[2].as_slice());
    let xt = split_words(lines[3].as_slice());
    let ghost xv = views(xt@);
    assert(views(a@) == words(ls[1]));
    assert(views(b@) == words(ls[2]));
    assert(xv == words(ls[3]));
    let a_len = a.len();
    assert(views(a@).len() == a_len);
    if n > usize::MAX / n {
        assert(n * n > usize::MAX) by (nonlinear_arith)
            requires
                n > usize::MAX / n,
                n > 0,
        ;
        return Err(FormatError::EntryCount);
    }
    assert(n * n <= usize::MAX) by (nonlinear_arith)
        requires
            n <= usize::MAX / n,
            n > 0,
    ;
    if a.len() != n * n || b.len() != n || xt.len() != n {
        return Err(FormatError::EntryCount);
    }
    let ghost model = SystemModel {
        n: n as nat,
        a: views(a@),
        b: views(b@),
        x: xv.map_values(|q: Seq<u8>| integer_value(q)->0),
    };
    assert(all_integers(xv) ==> parse(s@) == Ok::<SystemModel, FormatError>(model));
    assert(!all_integers(xv) ==> parse(s@) == Err::<SystemModel, FormatError>(FormatError::Entry));
    let mut x: Vec<i64> = Vec::new();
    let mut k: usize = 0;
    while k < xt.len()
        invariant
            all_integers(xv) ==> parse(s@) == Ok::<SystemModel, FormatError>(model),
            !all_integers(xv) ==> parse(s@) == Err::<SystemModel, FormatError>(FormatError::Entry),
            k <= xt@.len(),
            xv == views(xt@),
            x@.len() == k,
            forall|i: int|
                0 <= i < k ==> (#[trigger] integer_value(xv[i])) is Some
                    && i64::MIN <= integer_value(xv[i])->0 <= i64::MAX
                    && x@[i] as int == integer_value(xv[i])->0,
        decreases xt@.len() - k,
    {
        assert(xv[k as int] == xt@[k as int]@);
        match parse_integer(xt[k].as_slice()) {
            Some(v) => {
                x.push(v);
            },
            None => {
                assert(!all_integers(xv));
                return Err(FormatError::Entry);
            },
        }
        k = k + 1;
    }
    assert(all_integers(xv));
    let t = SystemText { n, a, b, x };
    assert(t@.x =~= model.x);
    Ok(t)
}

} // verus!
