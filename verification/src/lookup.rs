//! Discovery of the machine's public IPv4 address: the fixed query sent to
//! the lookup utility, and the interpretation of what it prints.

use vstd::prelude::*;

use crate::util::{split_char, split_on, trim, trimmed};
use crate::FatalError;

verus! {

/// An IPv4 address as four octets.
#[derive(Debug, Clone, Copy, PartialEq, Eq, Structural)]
pub struct Ipv4 {
    pub a: u8,
    pub b: u8,
    pub c: u8,
    pub d: u8,
}

pub open spec fn is_digit(c: char) -> bool {
    c == '0' || c == '1' || c == '2' || c == '3' || c == '4' || c == '5' || c == '6' || c == '7'
        || c == '8' || c == '9'
}

pub open spec fn digit_val(c: char) -> int {
    if c == '0' {
        0
    } else if c == '1' {
        1
    } else if c == '2' {
        2
    } else if c == '3' {
        3
    } else if c == '4' {
        4
    } else if c == '5' {
        5
    } else if c == '6' {
        6
    } else if c == '7' {
        7
    } else if c == '8' {
        8
    } else {
        9
    }
}

pub open spec fn digit_char(d: int) -> char {
    if d == 0 {
        '0'
    } else if d == 1 {
        '1'
    } else if d == 2 {
        '2'
    } else if d == 3 {
        '3'
    } else if d == 4 {
        '4'
    } else if d == 5 {
        '5'
    } else if d == 6 {
        '6'
    } else if d == 7 {
        '7'
    } else if d == 8 {
        '8'
    } else {
        '9'
    }
}

/// The number written by a sequence of decimal digits.
pub open spec fn str_val(t: Seq<char>) -> int
    decreases t.len(),
{
    if t.len() == 0 {
        0
    } else {
        str_val(t.drop_last()) * 10 + digit_val(t.last())
    }
}

pub open spec fn all_digits(t: Seq<char>) -> bool {
    forall|k: int| 0 <= k < t.len() ==> is_digit(#[trigger] t[k])
}

/// A piece of a dotted quad: one to three digits, no leading zero unless
/// the octet is exactly `0`, value at most 255.
pub open spec fn is_valid_octet(t: Seq<char>) -> bool {
    &&& 1 <= t.len() <= 3
    &&& all_digits(t)
    &&& (t.len() > 1 ==> t[0] != '0')
    &&& str_val(t) <= 255
}

/// A dotted quad: four valid octets separated by dots.
pub open spec fn is_valid_ipv4_text(s: Seq<char>) -> bool {
    let ps = split_on(s, '.');
    ps.len() == 4 && is_valid_octet(ps[0]) && is_valid_octet(ps[1]) && is_valid_octet(ps[2])
        && is_valid_octet(ps[3])
}

/// The address a valid dotted quad denotes.
pub open spec fn ipv4_of_text(s: Seq<char>) -> Ipv4 {
    let ps = split_on(s, '.');
    Ipv4 {
        a: str_val(ps[0]) as u8,
        b: str_val(ps[1]) as u8,
        c: str_val(ps[2]) as u8,
        d: str_val(ps[3]) as u8,
    }
}

/// The shortest decimal writing of `n`, for `0 <= n <= 255`.
pub open spec fn dec_of(n: int) -> Seq<char> {
    if n < 10 {
        seq![digit_char(n)]
    } else if n < 100 {
        seq![digit_char(n / 10), digit_char(n % 10)]
    } else {
        seq![digit_char(n / 100), digit_char((n / 10) % 10), digit_char(n % 10)]
    }
}

/// The dotted-quad writing of `ip`.
pub open spec fn ipv4_text(ip: Ipv4) -> Seq<char> {
    dec_of(ip.a as int) + seq!['.'] + dec_of(ip.b as int) + seq!['.'] + dec_of(ip.c as int)
        + seq!['.'] + dec_of(ip.d as int)
}

fn digit_of(c: char) -> (r: Option<u8>)
    ensures
        r is Some <==> is_digit(c),
        r is Some ==> r->0 as int == digit_val(c),
{
    match c {
        '0' => Some(0),
        '1' => Some(1),
        '2' => Some(2),
        '3' => Some(3),
        '4' => Some(4),
        '5' => Some(5),
        '6' => Some(6),
        '7' => Some(7),
        '8' => Some(8),
        '9' => Some(9),
        _ => None,
    }
}

fn digit_str(d: u8) -> (r: &'static str)
    requires
        d < 10,
    ensures
        r@ == seq![digit_char(d as int)],
{
    proof {
        reveal_strlit("0");
        reveal_strlit("1");
        reveal_strlit("2");
        reveal_strlit("3");
        reveal_strlit("4");
        reveal_strlit("5");
        reveal_strlit("6");
        reveal_strlit("7");
        reveal_strlit("8");
        reveal_strlit("9");
    }
    let r = match d {
        0 => "0",
        1 => "1",
        2 => "2",
        3 => "3",
        4 => "4",
        5 => "5",
        6 => "6",
        7 => "7",
        8 => "8",
        _ => "9",
    };
    proof {
        assert(r@ =~= seq![digit_char(d as int)]);
    }
    r
}

/// The shortest decimal writing of one octet.
fn octet_text(n: u8) -> (r: String)
    ensures
        r@ == dec_of(n as int),
{
    if n < 10 {
        let r = String::from_str(digit_str(n));
        proof {
            assert(r@ =~= dec_of(n as int));
        }
        r
    } else if n < 100 {
        let r = String::from_str(digit_str(n / 10)).concat(digit_str(n % 10));
        proof {
            assert(r@ =~= dec_of(n as int));
        }
        r
    } else {
        let r = String::from_str(digit_str(n / 100)).concat(digit_str((n / 10) % 10)).concat(
            digit_str(n % 10),
        );
        proof {
            assert(r@ =~= dec_of(n as int));
        }
        r
    }
}

/// Write `ip` as a dotted quad.
pub fn ipv4_to_string(ip: &Ipv4) -> (r: String)
    ensures
        r@ == ipv4_text(*ip),
{
    proof {
        reveal_strlit(".");
        assert("."@ =~= seq!['.']);
    }
    let mut out = octet_text(ip.a);
    out.append(".");
    let b = octet_text(ip.b);
    out.append(b.as_str());
    out.append(".");
    let c = octet_text(ip.c);
    out.append(c.as_str());
    out.append(".");
    let d = octet_text(ip.d);
    out.append(d.as_str());
    proof {
        assert(out@ =~= ipv4_text(*ip));
    }
    out
}

proof fn lemma_digit_char_props(d: int)
    requires
        0 <= d <= 9,
    ensures
        is_digit(digit_char(d)),
        digit_val(digit_char(d)) == d,
        (digit_char(d) == '0') == (d == 0),
        digit_char(d) != '.',
{
}

proof fn lemma_dec_of_props(n: int)
    requires
        0 <= n <= 255,
    ensures
        1 <= dec_of(n).len() <= 3,
        is_valid_octet(dec_of(n)),
        str_val(dec_of(n)) == n,
        forall|k: int| 0 <= k < dec_of(n).len() ==> dec_of(n)[k] != '.',
{
    let t = dec_of(n);
    assert(str_val(Seq::<char>::empty()) == 0);
    if n < 10 {
        lemma_digit_char_props(n);
        assert(t.drop_last() =~= Seq::<char>::empty());
        assert(str_val(t) == n);
    } else if n < 100 {
        lemma_digit_char_props(n / 10);
        lemma_digit_char_props(n % 10);
        assert(t.drop_last() =~= seq![digit_char(n / 10)]);
        assert(t.drop_last().drop_last() =~= Seq::<char>::empty());
        assert(str_val(t.drop_last()) == n / 10);
        assert(str_val(t) == (n / 10) * 10 + n % 10);
        assert(n / 10 >= 1);
    } else {
        lemma_digit_char_props(n / 100);
        lemma_digit_char_props((n / 10) % 10);
        lemma_digit_char_props(n % 10);
        assert(t.drop_last() =~= seq![digit_char(n / 100), digit_char((n / 10) % 10)]);
        assert(t.drop_last().drop_last() =~= seq![digit_char(n / 100)]);
        assert(t.drop_last().drop_last().drop_last() =~= Seq::<char>::empty());
        assert(str_val(t.drop_last().drop_last()) == n / 100);
        assert(n / 100 == (n / 10) / 10);
        assert(str_val(t.drop_last()) == ((n / 10) / 10) * 10 + (n / 10) % 10);
        assert(str_val(t.drop_last()) == n / 10);
        assert(str_val(t) == (n / 10) * 10 + n % 10);
        assert(n / 100 >= 1);
    }
}

/// Writing an address and reading it back yields the same address: the
/// dotted-quad text of `ip` is valid IPv4 text, and it denotes `ip`. So
/// `parse_ipv4` returns exactly `Some(ip)` on what `ipv4_to_string`
/// wrote.
pub proof fn lemma_ipv4_text_round_trips(ip: Ipv4)
    ensures
        is_valid_ipv4_text(ipv4_text(ip)),
        ipv4_of_text(ipv4_text(ip)) == ip,
{
    let pa = dec_of(ip.a as int);
    let pb = dec_of(ip.b as int);
    let pc = dec_of(ip.c as int);
    let pd = dec_of(ip.d as int);
    lemma_dec_of_props(ip.a as int);
    lemma_dec_of_props(ip.b as int);
    lemma_dec_of_props(ip.c as int);
    lemma_dec_of_props(ip.d as int);
    let dot = seq!['.'];
    let e = Seq::<char>::empty();
    assert(split_on(e, '.') == seq![Seq::<char>::empty()]);
    assert(e + pa =~= pa);
    crate::util::lemma_split_on_append_piece(e, pa, '.');
    assert(split_on(pa, '.') =~~= seq![pa]);
    crate::util::lemma_split_on_append_sep(pa, '.');
    assert(split_on(pa + dot, '.') =~~= seq![pa, e]);
    crate::util::lemma_split_on_append_piece(pa + dot, pb, '.');
    assert(e + pb =~= pb);
    assert(split_on(pa + dot + pb, '.') =~~= seq![pa, pb]);
    crate::util::lemma_split_on_append_sep(pa + dot + pb, '.');
    assert(split_on(pa + dot + pb + dot, '.') =~~= seq![pa, pb, e]);
    crate::util::lemma_split_on_append_piece(pa + dot + pb + dot, pc, '.');
    assert(e + pc =~= pc);
    assert(split_on(pa + dot + pb + dot + pc, '.') =~~= seq![pa, pb, pc]);
    crate::util::lemma_split_on_append_sep(pa + dot + pb + dot + pc, '.');
    assert(split_on(pa + dot + pb + dot + pc + dot, '.') =~~= seq![pa, pb, pc, e]);
    crate::util::lemma_split_on_append_piece(pa + dot + pb + dot + pc + dot, pd, '.');
    assert(e + pd =~= pd);
    assert(split_on(pa + dot + pb + dot + pc + dot + pd, '.') =~~= seq![pa, pb, pc, pd]);
    assert(ipv4_text(ip) == pa + dot + pb + dot + pc + dot + pd);
    assert(ipv4_of_text(ipv4_text(ip)) == ip);
}

proof fn lemma_str_val_small(t: Seq<char>)
    requires
        all_digits(t),
        t.len() <= 2,
    ensures
        0 <= str_val(t) <= 99,
{
    if t.len() == 1 {
        assert(str_val(t.drop_last()) == 0);
    } else if t.len() == 2 {
        assert(str_val(t.drop_last().drop_last()) == 0);
        assert(str_val(t.drop_last()) == digit_val(t.drop_last().last()));
        assert(is_digit(t.drop_last().last()));
    }
}

/// Read one octet; `Some` exactly on valid octet text.
fn parse_octet(t: &str) -> (r: Option<u8>)
    ensures
        r is Some <==> is_valid_octet(t@),
        r is Some ==> r->0 as int == str_val(t@),
{
    let n = t.unicode_len();
    if n == 0 || n > 3 {
        return None;
    }
    if n > 1 && t.get_char(0) == '0' {
        return None;
    }
    let mut val: u32 = 0;
    let mut i: usize = 0;
    while i < n
        invariant
            n == t@.len(),
            1 <= n <= 3,
            i <= n,
            all_digits(t@.take(i as int)),
            val as int == str_val(t@.take(i as int)),
            val <= 999,
        decreases n - i,
    {
        let c = t.get_char(i);
        proof {
            assert(t@.take(i + 1 as int).drop_last() =~= t@.take(i as int));
            assert(t@.take(i + 1 as int).last() == t@[i as int]);
            lemma_str_val_small(t@.take(i as int));
        }
        match digit_of(c) {
            Some(d) => {
                val = val * 10 + (d as u32);
            },
            None => {
                proof {
                    assert(!is_digit(t@[i as int]));
                }
                return None;
            },
        }
        i = i + 1;
    }
    proof {
        assert(t@.take(n as int) =~= t@);
    }
    if val > 255 {
        None
    } else {
        Some(val as u8)
    }
}

/// Read a dotted quad; `Some` exactly on valid IPv4 text.
pub fn parse_ipv4(s: &str) -> (r: Option<Ipv4>)
    ensures
        r == if is_valid_ipv4_text(s@) {
            Some(ipv4_of_text(s@))
        } else {
            None::<Ipv4>
        },
{
    let parts = split_char(s, '.');
    if parts.len() != 4 {
        return None;
    }
    let a = parse_octet(parts[0].as_str());
    let b = parse_octet(parts[1].as_str());
    let c = parse_octet(parts[2].as_str());
    let d = parse_octet(parts[3].as_str());
    match (a, b, c, d) {
        (Some(a), Some(b), Some(c), Some(d)) => Some(Ipv4 { a, b, c, d }),
        _ => None,
    }
}

/// What the lookup utility's run means: failure aborts, output that is not
/// an IPv4 dotted quad (after trimming) is a parse error, anything else is
/// the discovered address.
pub fn interpret_lookup_output(success: bool, stdout: &str) -> (r: Result<Ipv4, FatalError>)
    ensures
        r == if !success {
            Err::<Ipv4, FatalError>(FatalError::LookupFailed)
        } else if is_valid_ipv4_text(trimmed(stdout@)) {
            Ok::<Ipv4, FatalError>(ipv4_of_text(trimmed(stdout@)))
        } else {
            Err::<Ipv4, FatalError>(FatalError::AddressParse)
        },
{
    if !success {
        return Err(FatalError::LookupFailed);
    }
    let cleaned = trim(stdout);
    match parse_ipv4(cleaned.as_str()) {
        Some(ip) => Ok(ip),
        None => Err(FatalError::AddressParse),
    }
}

/// The three arguments handed to the lookup utility: the short-answer
/// flag, the echo-service name, and the resolver host queried.
pub struct LookupQuery {
    pub options: String,
    pub domain: String,
    pub resolver: String,
}

/// The fixed query that discovers the public address through opendns.
pub fn opendns_query() -> (q: LookupQuery)
    ensures
        q.options@ == "+short"@,
        q.domain@ == "myip.opendns.com"@,
        q.resolver@ == "resolver1.opendns.com"@,
{
    LookupQuery {
        options: String::from_str("+short"),
        domain: String::from_str("myip.opendns.com"),
        resolver: String::from_str("resolver1.opendns.com"),
    }
}

} // verus!
