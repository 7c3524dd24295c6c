//! Small text helpers shared by the config and provider layers:
//! whitespace stripping, trimming, splitting on a separator character.

use vstd::prelude::*;

verus! {

/// Whether `char::is_whitespace` holds of `c`; the answer depends on the
/// character alone.
pub uninterp spec fn is_unicode_space(c: char) -> bool;

/// Relies on `char::is_whitespace`: the Unicode `White_Space` property of
/// the single character `c`.
#[verifier::external_body]
fn char_is_space(c: char) -> (r: bool)
    ensures
        r == is_unicode_space(c),
{
    c.is_whitespace()
}

/// What `str::to_lowercase` makes of `s`; the result depends on the
/// characters alone.
pub uninterp spec fn lower_of(s: Seq<char>) -> Seq<char>;

/// Relies on `str::to_lowercase`: the Unicode lowercase mapping of `s`,
/// a function of the characters alone.
#[verifier::external_body]
pub(crate) fn lowercase(s: &str) -> (r: String)
    ensures
        r@ == lower_of(s@),
{
    s.to_lowercase()
}

/// The characters of `s` that are not whitespace, in order.
pub open spec fn without_spaces(s: Seq<char>) -> Seq<char> {
    s.filter(|c: char| !is_unicode_space(c))
}

/// Copy of `s` with every whitespace character removed.
pub fn remove_whitespace(s: &str) -> (r: String)
    ensures
        r@ == without_spaces(s@),
{
    let n = s.unicode_len();
    let mut out = String::new();
    let mut i: usize = 0;
    while i < n
        invariant
            n == s@.len(),
            i <= n,
            out@ == without_spaces(s@.take(i as int)),
        decreases n - i,
    {
        let piece = s.substring_char(i, i + 1);
        proof {
            assert(piece@ =~= seq![s@[i as int]]);
            assert(s@.take(i + 1 as int) =~= s@.take(i as int).push(s@[i as int]));
            s@.take(i as int).lemma_filter_push(s@[i as int], |c: char| !is_unicode_space(c));
        }
        if !char_is_space(piece.get_char(0)) {
            out.append(piece);
        }
        i = i + 1;
    }
    proof {
        assert(s@.take(n as int) =~= s@);
    }
    out
}

/// The pieces of `s` between occurrences of `sep`, in order, as
/// `str::split` yields them: an empty input gives one empty piece, and a
/// separator at either end or next to another gives an empty piece there.
pub open spec fn split_on(s: Seq<char>, sep: char) -> Seq<Seq<char>>
    decreases s.len(),
{
    if s.len() == 0 {
        seq![Seq::<char>::empty()]
    } else if s[0] == sep {
        seq![Seq::<char>::empty()] + split_on(s.drop_first(), sep)
    } else {
        let rest = split_on(s.drop_first(), sep);
        seq![seq![s[0]] + rest[0]] + rest.drop_first()
    }
}

pub proof fn lemma_split_on_len(s: Seq<char>, sep: char)
    ensures
        split_on(s, sep).len() >= 1,
    decreases s.len(),
{
    if s.len() > 0 {
        lemma_split_on_len(s.drop_first(), sep);
    }
}

/// Appending the separator appends one empty piece.
proof fn lemma_split_on_push_sep(s: Seq<char>, sep: char)
    ensures
        split_on(s.push(sep), sep) == split_on(s, sep).push(Seq::<char>::empty()),
    decreases s.len(),
{
    lemma_split_on_len(s, sep);
    if s.len() == 0 {
        assert(s.push(sep)[0] == sep);
        assert(s.push(sep).drop_first() =~= Seq::<char>::empty());
        assert(s =~= Seq::<char>::empty());
        assert(split_on(Seq::<char>::empty(), sep) == seq![Seq::<char>::empty()]);
        assert(split_on(s.push(sep), sep) =~~= split_on(s, sep).push(Seq::<char>::empty()));
    } else {
        assert(s.push(sep).drop_first() =~= s.drop_first().push(sep));
        lemma_split_on_push_sep(s.drop_first(), sep);
        lemma_split_on_len(s.drop_first(), sep);
        assert(split_on(s.push(sep), sep) =~~= split_on(s, sep).push(Seq::<char>::empty()));
    }
}

/// Appending any other character extends the last piece.
proof fn lemma_split_on_push_other(s: Seq<char>, sep: char, c: char)
    requires
        c != sep,
    ensures
        split_on(s.push(c), sep) == split_on(s, sep).drop_last().push(
            split_on(s, sep).last().push(c),
        ),
    decreases s.len(),
{
    lemma_split_on_len(s, sep);
    if s.len() == 0 {
        assert(s.push(c)[0] == c);
        assert(s.push(c).drop_first() =~= Seq::<char>::empty());
        assert(s =~= Seq::<char>::empty());
        assert(split_on(Seq::<char>::empty(), sep) == seq![Seq::<char>::empty()]);
        assert(split_on(s.push(c), sep) =~~= split_on(s, sep).drop_last().push(
            split_on(s, sep).last().push(c),
        ));
    } else {
        assert(s.push(c).drop_first() =~= s.drop_first().push(c));
        lemma_split_on_push_other(s.drop_first(), sep, c);
        lemma_split_on_len(s.drop_first(), sep);
        assert(split_on(s.push(c), sep) =~~= split_on(s, sep).drop_last().push(
            split_on(s, sep).last().push(c),
        ));
    }
}

/// Appending one separator appends one empty piece.
pub proof fn lemma_split_on_append_sep(x: Seq<char>, sep: char)
    ensures
        split_on(x + seq![sep], sep) == split_on(x, sep).push(Seq::<char>::empty()),
{
    assert(x + seq![sep] =~= x.push(sep));
    lemma_split_on_push_sep(x, sep);
}

/// Appending separator-free text extends the last piece and nothing
/// else.
pub proof fn lemma_split_on_append_piece(x: Seq<char>, p: Seq<char>, sep: char)
    requires
        forall|k: int| 0 <= k < p.len() ==> p[k] != sep,
    ensures
        split_on(x + p, sep) == split_on(x, sep).drop_last().push(split_on(x, sep).last() + p),
    decreases p.len(),
{
    lemma_split_on_len(x, sep);
    if p.len() == 0 {
        assert(x + p =~= x);
        assert(split_on(x, sep).drop_last().push(split_on(x, sep).last() + p) =~~= split_on(
            x,
            sep,
        ));
    } else {
        let q = p.drop_last();
        let c = p.last();
        lemma_split_on_append_piece(x, q, sep);
        assert(x + p =~= (x + q).push(c));
        lemma_split_on_push_other(x + q, sep, c);
        lemma_split_on_len(x + q, sep);
        assert((split_on(x, sep).last() + q).push(c) =~= split_on(x, sep).last() + p);
        assert(split_on(x + p, sep) =~~= split_on(x, sep).drop_last().push(
            split_on(x, sep).last() + p,
        ));
    }
}

/// The pieces of `s` between occurrences of `sep`, as owned strings.
pub fn split_char(s: &str, sep: char) -> (r: Vec<String>)
    ensures
        r@.map_values(|t: String| t@) == split_on(s@, sep),
{
    let n = s.unicode_len();
    let mut out: Vec<String> = Vec::new();
    let mut cur = String::new();
    let mut i: usize = 0;
    while i < n
        invariant
            n == s@.len(),
            i <= n,
            out@.map_values(|t: String| t@).push(cur@) == split_on(s@.take(i as int), sep),
        decreases n - i,
    {
        proof {
            assert(s@.take(i + 1 as int) =~= s@.take(i as int).push(s@[i as int]));
            lemma_split_on_len(s@.take(i as int), sep);
        }
        let c = s.get_char(i);
        if c == sep {
            proof {
                lemma_split_on_push_sep(s@.take(i as int), sep);
            }
            out.push(cur);
            cur = String::new();
            proof {
                assert(out@.map_values(|t: String| t@).push(cur@) =~~= split_on(
                    s@.take(i + 1 as int),
                    sep,
                ));
            }
        } else {
            proof {
                lemma_split_on_push_other(s@.take(i as int), sep, c);
            }
            let piece = s.substring_char(i, i + 1);
            proof {
                assert(piece@ =~= seq![s@[i as int]]);
            }
            cur.append(piece);
            proof {
                assert(out@.map_values(|t: String| t@).push(cur@) =~~= split_on(
                    s@.take(i + 1 as int),
                    sep,
                ));
            }
        }
        i = i + 1;
    }
    proof {
        assert(s@.take(n as int) =~= s@);
    }
    out.push(cur);
    out
}

pub open spec fn trim_start_spec(s: Seq<char>) -> Seq<char>
    decreases s.len(),
{
    if s.len() > 0 && is_unicode_space(s[0]) {
        trim_start_spec(s.drop_first())
    } else {
        s
    }
}

pub open spec fn trim_end_spec(s: Seq<char>) -> Seq<char>
    decreases s.len(),
{
    if s.len() > 0 && is_unicode_space(s.last()) {
        trim_end_spec(s.drop_last())
    } else {
        s
    }
}

/// `s` with leading and trailing whitespace removed.
pub open spec fn trimmed(s: Seq<char>) -> Seq<char> {
    trim_end_spec(trim_start_spec(s))
}

proof fn lemma_trim_start_at(s: Seq<char>, lo: int)
    requires
        0 <= lo <= s.len(),
        forall|k: int| 0 <= k < lo ==> is_unicode_space(s[k]),
        lo == s.len() || !is_unicode_space(s[lo]),
    ensures
        trim_start_spec(s) == s.subrange(lo, s.len() as int),
    decreases lo,
{
    if lo == 0 {
        assert(trim_start_spec(s) =~= s.subrange(0, s.len() as int));
    } else {
        lemma_trim_start_at(s.drop_first(), lo - 1);
        assert(s.drop_first().subrange(lo - 1, s.drop_first().len() as int) =~= s.subrange(
            lo,
            s.len() as int,
        ));
    }
}

proof fn lemma_trim_end_at(s: Seq<char>, hi: int)
    requires
        0 <= hi <= s.len(),
        forall|k: int| hi <= k < s.len() ==> is_unicode_space(s[k]),
        hi == 0 || !is_unicode_space(s[hi - 1]),
    ensures
        trim_end_spec(s) == s.subrange(0, hi),
    decreases s.len(),
{
    if hi == s.len() {
        if hi == 0 {
            assert(trim_end_spec(s) =~= s.subrange(0, hi));
        } else {
            assert(trim_end_spec(s) =~= s.subrange(0, hi));
        }
    } else {
        lemma_trim_end_at(s.drop_last(), hi);
        assert(s.drop_last().subrange(0, hi) =~= s.subrange(0, hi));
    }
}

/// Copy of `s` with leading and trailing whitespace removed.
pub fn trim(s: &str) -> (r: String)
    ensures
        r@ == trimmed(s@),
{
    let n = s.unicode_len();
    let mut lo: usize = 0;
    while lo < n && char_is_space(s.get_char(lo))
        invariant
            n == s@.len(),
            lo <= n,
            forall|k: int| 0 <= k < lo ==> is_unicode_space(s@[k]),
        decreases n - lo,
    {
        lo = lo + 1;
    }
    let mut hi: usize = n;
    while hi > lo && char_is_space(s.get_char(hi - 1))
        invariant
            n == s@.len(),
            lo <= hi <= n,
            forall|k: int| hi <= k < n ==> is_unicode_space(s@[k]),
        decreases hi,
    {
        hi = hi - 1;
    }
    proof {
        lemma_trim_start_at(s@, lo as int);
        let t = s@.subrange(lo as int, n as int);
        lemma_trim_end_at(t, hi - lo as int);
        assert(t.subrange(0, hi - lo as int) =~= s@.subrange(lo as int, hi as int));
    }
    let r = s.substring_char(lo, hi);
    r.to_owned()
}

} // verus!

