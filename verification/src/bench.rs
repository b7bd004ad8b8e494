//! The request mix and latency summary of the load generator.

use vstd::prelude::*;
use crate::errors::text;
use crate::export::all_digits;
use crate::json::{is_digit, digits_value};
use crate::server::{first_non_digit, lemma_first_non_digit, lemma_digits_value_prefix_grows};
use crate::strings::{chars_of, string_of_chars};

verus! {

/// How many sets and gets make up one cycle of the request mix.
#[derive(Debug, Clone, Copy, PartialEq, Eq, Structural)]
pub struct Ratio {
    pub set: u64,
    pub get: u64,
}

/// The digits of an unsigned number's text: without a leading `+`.
pub open spec fn unsigned_digits(s: Seq<char>) -> Seq<char> {
    if s.len() > 0 && s[0] == '+' {
        s.drop_first()
    } else {
        s
    }
}

/// What `u64`'s `parse` gives: an optional `+`, then digits, at most
/// `u64::MAX`.
pub open spec fn u64_text(s: Seq<char>) -> Option<u64> {
    let d = unsigned_digits(s);
    if d.len() == 0 || !all_digits(d) || digits_value(d) > u64::MAX {
        None
    } else {
        Some(digits_value(d) as u64)
    }
}

/// The message of `u64`'s `parse` for a text it refuses: the first problem
/// met reading left to right.
pub open spec fn uint_error_text(s: Seq<char>) -> Seq<char> {
    let d = unsigned_digits(s);
    if s.len() == 0 {
        "cannot parse integer from empty string"@
    } else if d.len() == 0 {
        "invalid digit found in string"@
    } else if digits_value(d.take(first_non_digit(d))) > u64::MAX {
        "number too large to fit in target type"@
    } else {
        "invalid digit found in string"@
    }
}

/// `s` as an unsigned 64-bit number, or the message `parse` gives.
pub fn parse_u64(s: &str) -> (r: Result<u64, String>)
    ensures
        match u64_text(s@) {
            Some(n) => r == Ok::<u64, String>(n),
            None => r matches Err(m) && m@ == uint_error_text(s@),
        },
{
    let cs = chars_of(s);
    let n = cs.len();
    if n == 0 {
        return Err(text("cannot parse integer from empty string"));
    }
    let start: usize = if cs[0] == '+' {
        1
    } else {
        0
    };
    let ghost d = unsigned_digits(s@);
    assert(d =~= cs@.skip(start as int));
    if start == n {
        return Err(text("invalid digit found in string"));
    }
    proof {
        lemma_first_non_digit(d);
    }
    let ghost k = first_non_digit(d);
    let mut acc: u64 = 0;
    let mut i: usize = start;
    while i < n && '0' <= cs[i] && cs[i] <= '9'
        invariant
            start <= i <= n,
            n == cs@.len(),
            n > 0,
            s@ == cs@,
            d == cs@.skip(start as int),
            d == unsigned_digits(s@),
            k == first_non_digit(d),
            0 <= k <= d.len(),
            forall|q: int| 0 <= q < k ==> is_digit(#[trigger] d[q]),
            k < d.len() ==> !is_digit(d[k]),
            i - start <= k,
            acc as int == digits_value(d.take(i - start)),
        decreases n - i,
    {
        let dig = (cs[i] as u32 - '0' as u32) as u64;
        assert(d[i - start] == cs@[i as int]);
        assert(d.take(i - start + 1).drop_last() =~= d.take(i - start));
        assert(d.take(i - start + 1).last() == cs@[i as int]);
        assert(dig as int == cs@[i as int] as int - '0' as int);
        assert(digits_value(d.take(i - start + 1)) == acc * 10 + dig);
        if acc > (u64::MAX - dig) / 10 {
            assert(acc * 10 + dig > u64::MAX) by (nonlinear_arith)
                requires
                    acc > (u64::MAX - dig) / 10,
                    dig <= 9,
            ;
            proof {
                lemma_digits_value_prefix_grows(d, i - start + 1, k);
                if all_digits(d) {
                    assert(d.take(d.len() as int) =~= d);
                    lemma_digits_value_prefix_grows(d, k, d.len() as int);
                }
            }
            return Err(text("number too large to fit in target type"));
        }
        assert(acc * 10 + dig <= u64::MAX) by (nonlinear_arith)
            requires
                acc <= (u64::MAX - dig) / 10,
                dig <= 9,
        ;
        acc = acc * 10 + dig;
        i = i + 1;
    }
    if i < n {
        assert(d[i - start] == cs@[i as int]);
        assert(!all_digits(d));
        return Err(text("invalid digit found in string"));
    }
    assert(i - start == d.len());
    assert(d.take(d.len() as int) =~= d);
    assert(all_digits(d));
    Ok(acc)
}

/// The position of the first `:` in `s`, if any.
pub open spec fn first_colon(s: Seq<char>) -> Option<int>
    decreases s.len(),
{
    if s.len() == 0 {
        None
    } else if s[0] == ':' {
        Some(0)
    } else {
        match first_colon(s.drop_first()) {
            Some(i) => Some(i + 1),
            None => None,
        }
    }
}

/// The mix `set:get` that a text gives, split at its first `:`.
pub open spec fn ratio_of(s: Seq<char>) -> Result<Ratio, Seq<char>> {
    match first_colon(s) {
        None => Err("ratio must be set:get"@),
        Some(i) => {
            let a = s.take(i);
            let b = s.skip(i + 1);
            match u64_text(a) {
                None => Err("set side: "@ + uint_error_text(a)),
                Some(x) => match u64_text(b) {
                    None => Err("get side: "@ + uint_error_text(b)),
                    Some(y) => Ok(Ratio { set: x, get: y }),
                },
            }
        },
    }
}

/// Parse a request mix written `set:get`.
pub fn parse_ratio(s: &str) -> (r: Result<Ratio, String>)
    ensures
        match ratio_of(s@) {
            Ok(x) => r == Ok::<Ratio, String>(x),
            Err(m) => r matches Err(e) && e@ == m,
        },
{
    let cs = chars_of(s);
    let mut i: usize = 0;
    assert(cs@.skip(0) =~= cs@);
    while i < cs.len() && cs[i] != ':'
        invariant
            i <= cs@.len(),
            cs@ == s@,
            forall|j: int| 0 <= j < i ==> cs@[j] != ':',
            first_colon(s@) == match first_colon(cs@.skip(i as int)) {
                Some(k) => Some(k + i),
                None => None::<int>,
            },
        decreases cs@.len() - i,
    {
        assert(cs@.skip(i as int).drop_first() =~= cs@.skip(i + 1));
        i = i + 1;
    }
    if i == cs.len() {
        assert(cs@.skip(i as int) =~= Seq::<char>::empty());
        return Err(text("ratio must be set:get"));
    }
    assert(cs@.skip(i as int)[0] == ':');
    let a = string_of_chars(vstd::slice::slice_subrange(cs.as_slice(), 0, i));
    assert(cs@.subrange(0, i as int) =~= s@.take(i as int));
    let b = string_of_chars(vstd::slice::slice_subrange(cs.as_slice(), i + 1, cs.len()));
    assert(cs@.subrange(i + 1, cs@.len() as int) =~= s@.skip(i + 1));
    let x = match parse_u64(a.as_str()) {
        Ok(x) => x,
        Err(m) => {
            let mut e = text("set side: ");
            e.append(m.as_str());
            return Err(e);
        },
    };
    let y = match parse_u64(b.as_str()) {
        Ok(y) => y,
        Err(m) => {
            let mut e = text("get side: ");
            e.append(m.as_str());
            return Err(e);
        },
    };
    Ok(Ratio { set: x, get: y })
}

/// Check a load before it runs: the mix must send something, and at least
/// one client must send it. The mix is checked first.
pub fn check_load(ratio: Ratio, clients: u64) -> (r: Result<(), String>)
    requires
        ratio.set + ratio.get <= u64::MAX,
    ensures
        ratio.set + ratio.get == 0 ==> (r matches Err(m) && m@ == "ratio sum must be > 0"@),
        ratio.set + ratio.get > 0 && clients == 0 ==> (r matches Err(m) && m@
            == "clients must be > 0"@),
        ratio.set + ratio.get > 0 && clients > 0 ==> r is Ok,
{
    if ratio.set + ratio.get == 0 {
        return Err(text("ratio sum must be > 0"));
    }
    if clients == 0 {
        return Err(text("clients must be > 0"));
    }
    Ok(())
}

/// How a reply to a load request counts: a set that failed (a failure
/// reply or no reply) is an error; every other reply, a failed get
/// included, has its latency recorded.
pub fn counts_as_error(is_set: bool, failed: bool) -> (r: bool)
    ensures
        r == (is_set && failed),
{
    is_set && failed
}

/// Whether request `seq` of a client is a set: the first `set` requests of
/// each cycle of `set + get` are.
pub fn is_set(seq: u64, ratio: Ratio) -> (r: bool)
    requires
        0 < ratio.set + ratio.get <= u64::MAX,
    ensures
        r == (seq % ((ratio.set + ratio.get) as u64) < ratio.set),
{
    let cycle = ratio.set + ratio.get;
    let pos = seq % cycle;
    pos < ratio.set
}

/// The element at percentile `p` of a sorted list: index
/// `p * (len - 1) / 100`; 0 for an empty list.
pub fn percentile(sorted: &[u64], p: u32) -> (r: u64)
    requires
        sorted@.len() > 0 ==> (p as int) * (sorted@.len() - 1) <= usize::MAX,
        sorted@.len() > 0 ==> (p as int) * (sorted@.len() - 1) / 100 < sorted@.len(),
    ensures
        sorted@.len() == 0 ==> r == 0,
        sorted@.len() > 0 ==> r == sorted@[(p as int) * (sorted@.len() - 1) / 100],
{
    if sorted.len() == 0 {
        return 0;
    }
    let m = sorted.len() - 1;
    assert((p as int) * (m as int) <= usize::MAX);
    let prod = (p as usize) * m;
    let idx = prod / 100;
    sorted[idx]
}

/// How many of `requests` client `c` of `clients` sends: an even share,
/// the first `requests % clients` clients one more.
pub fn client_share(requests: u64, clients: u64, c: u64) -> (r: u64)
    requires
        clients > 0,
    ensures
        r == requests / clients + if c < requests % clients { 1u64 } else { 0u64 },
{
    let per = requests / clients;
    let rem = requests % clients;
    assert(per * clients + rem == requests) by (nonlinear_arith)
        requires
            per == requests / clients,
            rem == requests % clients,
            clients > 0,
    ;
    if c < rem {
        assert(per < u64::MAX) by (nonlinear_arith)
            requires
                per * clients + rem == requests,
                rem > 0,
                clients > 0,
                requests <= u64::MAX,
        ;
        per + 1
    } else {
        per
    }
}

/// The key a client's request `seq` addresses: `(c * 1000000 + seq) mod
/// keyspace`.
pub fn key_index(c: u64, seq: u64, keyspace: u64) -> (r: u64)
    requires
        keyspace > 0,
        c * 1_000_000 + seq <= u64::MAX,
    ensures
        r == (c * 1_000_000 + seq) % (keyspace as int),
{
    (c * 1_000_000 + seq) % keyspace
}

} // verus!
