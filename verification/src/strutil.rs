use vstd::prelude::*;

verus! {

use vstd::string::StrSliceExecFns;
use vstd::string::StringExecFns;

/// `needle` occurs in `hay` as a contiguous run of characters.
pub open spec fn spec_contains(hay: Seq<char>, needle: Seq<char>) -> bool {
    exists|i: int|
        0 <= i && i + needle.len() <= hay.len() && #[trigger] hay.subrange(i, i + needle.len())
            == needle
}

/// What `str::to_lowercase` returns; it depends on the characters alone.
pub uninterp spec fn lower_of(s: Seq<char>) -> Seq<char>;

/// Relies on str::to_lowercase: the Unicode lowercase conversion of a string,
/// a pure function of its characters, named here as `lower_of`.
#[verifier::external_body]
pub(crate) fn lower(s: &str) -> (r: String)
    ensures
        r@ == lower_of(s@),
{
    s.to_lowercase()
}

fn matches_at(hay: &str, i: usize, needle: &str) -> (r: bool)
    requires
        i + needle@.len() <= hay@.len(),
    ensures
        r == (hay@.subrange(i as int, i as int + needle@.len() as int) == needle@),
{
    let hl = hay.unicode_len();
    let n = needle.unicode_len();
    let mut j: usize = 0;
    while j < n
        invariant
            n == needle@.len(),
            hl == hay@.len(),
            i + n <= hay@.len(),
            j <= n,
            forall|jj: int| 0 <= jj < j ==> hay@[i + jj] == needle@[jj],
        decreases n - j,
    {
        if hay.get_char(i + j) != needle.get_char(j) {
            proof {
                assert(hay@.subrange(i as int, i as int + needle@.len() as int)[j as int]
                    == hay@[i + j]);
            }
            return false;
        }
        j += 1;
    }
    proof {
        assert(hay@.subrange(i as int, i as int + needle@.len() as int) =~= needle@);
    }
    true
}

/// Whether `needle` occurs in `hay`, by scanning every start position.
pub(crate) fn contains_str(hay: &str, needle: &str) -> (r: bool)
    ensures
        r == spec_contains(hay@, needle@),
{
    let h = hay.unicode_len();
    let n = needle.unicode_len();
    if n > h {
        return false;
    }
    if n == 0 {
        proof {
            assert(hay@.subrange(0, 0 + needle@.len() as int) =~= needle@);
            assert(spec_contains(hay@, needle@));
        }
        return true;
    }
    let mut i: usize = 0;
    while i <= h - n
        invariant
            1 <= n <= h,
            h == hay@.len(),
            n == needle@.len(),
            i <= h - n + 1,
            forall|ii: int|
                0 <= ii < i ==> #[trigger] hay@.subrange(ii, ii + needle@.len() as int)
                    != needle@,
        decreases h - n - i + 1,
    {
        if matches_at(hay, i, needle) {
            proof {
                assert(spec_contains(hay@, needle@));
            }
            return true;
        }
        i += 1;
    }
    proof {
        if spec_contains(hay@, needle@) {
            let ii = choose|ii: int|
                0 <= ii && ii + needle@.len() <= hay@.len() && #[trigger] hay@.subrange(
                    ii,
                    ii + needle@.len() as int,
                ) == needle@;
            assert(ii < i);
            assert(false);
        }
    }
    false
}

/// Characterwise equality of two string slices.
pub fn str_eq(a: &str, b: &str) -> (r: bool)
    ensures
        r == (a@ == b@),
{
    let alen = a.unicode_len();
    let blen = b.unicode_len();
    if alen != blen {
        return false;
    }
    let mut i: usize = 0;
    while i < alen
        invariant
            alen == a@.len(),
            alen == b@.len(),
            0 <= i <= alen,
            forall|j: int| 0 <= j < i ==> a@[j] == b@[j],
        decreases alen - i,
    {
        if a.get_char(i) != b.get_char(i) {
            return false;
        }
        i += 1;
    }
    proof {
        assert(a@ =~= b@);
    }
    true
}

pub open spec fn spec_digit(d: nat) -> char {
    if d == 0 {
        '0'
    } else if d == 1 {
        '1'
    } else if d == 2 {
        '2'
    } else if d == 3 {
        '3'
    } else if d == 4 {
        '4'
    } else if d == 5 {
        '5'
    } else if d == 6 {
        '6'
    } else if d == 7 {
        '7'
    } else if d == 8 {
        '8'
    } else {
        '9'
    }
}

/// Decimal notation of a natural number, without sign or leading zeros.
pub open spec fn spec_dec(n: nat) -> Seq<char>
    decreases n,
{
    if n < 10 {
        seq![spec_digit(n)]
    } else {
        spec_dec(n / 10) + seq![spec_digit(n % 10)]
    }
}

fn digit_str(d: u64) -> (r: &'static str)
    requires
        d < 10,
    ensures
        r@ == seq![spec_digit(d as nat)],
{
    match d {
        0 => {
            proof {
                reveal_strlit("0");
                assert("0"@ =~= seq![spec_digit(0)]);
            }
            "0"
        },
        1 => {
            proof {
                reveal_strlit("1");
                assert("1"@ =~= seq![spec_digit(1)]);
            }
            "1"
        },
        2 => {
            proof {
                reveal_strlit("2");
                assert("2"@ =~= seq![spec_digit(2)]);
            }
            "2"
        },
        3 => {
            proof {
                reveal_strlit("3");
                assert("3"@ =~= seq![spec_digit(3)]);
            }
            "3"
        },
        4 => {
            proof {
                reveal_strlit("4");
                assert("4"@ =~= seq![spec_digit(4)]);
            }
            "4"
        },
        5 => {
            proof {
                reveal_strlit("5");
                assert("5"@ =~= seq![spec_digit(5)]);
            }
            "5"
        },
        6 => {
            proof {
                reveal_strlit("6");
                assert("6"@ =~= seq![spec_digit(6)]);
            }
            "6"
        },
        7 => {
            proof {
                reveal_strlit("7");
                assert("7"@ =~= seq![spec_digit(7)]);
            }
            "7"
        },
        8 => {
            proof {
                reveal_strlit("8");
                assert("8"@ =~= seq![spec_digit(8)]);
            }
            "8"
        },
        _ => {
            proof {
                reveal_strlit("9");
                assert("9"@ =~= seq![spec_digit(d as nat)]);
            }
            "9"
        },
    }
}

/// Decimal notation of a 64-bit number.
pub fn u64_to_dec(n: u64) -> (r: String)
    ensures
        r@ == spec_dec(n as nat),
    decreases n,
{
    if n < 10 {
        digit_str(n).to_owned()
    } else {
        let mut s = u64_to_dec(n / 10);
        s.append(digit_str(n % 10));
        proof {
            assert((n / 10) as nat == (n as nat) / 10);
            assert((n % 10) as nat == (n as nat) % 10);
        }
        s
    }
}

pub open spec fn is_dec_digit(c: char) -> bool {
    '0' <= c <= '9'
}

pub open spec fn digit_val(c: char) -> nat {
    (c as nat - '0' as nat) as nat
}

pub open spec fn all_digits(s: Seq<char>) -> bool {
    forall|i: int| 0 <= i < s.len() ==> is_dec_digit(#[trigger] s[i])
}

/// Value of a run of decimal digits, most significant first.
pub open spec fn digits_val(s: Seq<char>) -> nat
    decreases s,
{
    if s.len() == 0 {
        0
    } else {
        digits_val(s.drop_last()) * 10 + digit_val(s.last())
    }
}

/// The run of characters a decimal parse reads: everything past one
/// optional leading `+`.
pub open spec fn dec_body(s: Seq<char>) -> Seq<char> {
    if s.len() > 0 && s[0] == '+' {
        s.drop_first()
    } else {
        s
    }
}

/// What parsing a decimal number out of a string yields: an optional leading
/// `+`, then at least one digit, and a value that fits in 64 bits.
pub open spec fn spec_parse_u64(s: Seq<char>) -> Option<u64> {
    let t = dec_body(s);
    if t.len() == 0 || !all_digits(t) {
        None
    } else if digits_val(t) > u64::MAX {
        None
    } else {
        Some(digits_val(t) as u64)
    }
}

proof fn lemma_digits_val_prefix_monotone(s: Seq<char>, i: int, j: int)
    requires
        0 <= i <= j <= s.len(),
    ensures
        digits_val(s.subrange(0, i)) <= digits_val(s.subrange(0, j)),
    decreases j - i,
{
    if i < j {
        lemma_digits_val_prefix_monotone(s, i, j - 1);
        let p = s.subrange(0, j);
        assert(p.drop_last() =~= s.subrange(0, j - 1));
        assert(digits_val(s.subrange(0, j - 1)) <= digits_val(p));
    }
}

/// Parse a decimal 64-bit number, as the `spec_parse_u64` notation defines it.
pub fn parse_u64(s: &str) -> (r: Option<u64>)
    ensures
        r == spec_parse_u64(s@),
{
    let len = s.unicode_len();
    let mut start: usize = 0;
    if len > 0 && s.get_char(0) == '+' {
        start = 1;
    }
    if len == start {
        return None;
    }
    let ghost t = dec_body(s@);
    proof {
        assert(t =~= s@.subrange(start as int, len as int));
    }
    let mut acc: u64 = 0;
    let mut i: usize = start;
    while i < len
        invariant
            start <= i <= len,
            len == s@.len(),
            start == 0 || start == 1,
            t == dec_body(s@),
            t == s@.subrange(start as int, len as int),
            t.len() == len - start,
            forall|j: int| 0 <= j < i - start ==> is_dec_digit(#[trigger] t[j]),
            acc == digits_val(t.subrange(0, i - start)),
        decreases len - i,
    {
        let c = s.get_char(i);
        if c < '0' || c > '9' {
            proof {
                assert(t[i - start] == s@[i as int]);
                assert(!is_dec_digit(t[i - start]));
            }
            return None;
        }
        let d: u64 = (c as u32 as u64) - 48;
        proof {
            assert(t.subrange(0, i + 1 - start).drop_last() =~= t.subrange(0, i - start));
            assert(t.subrange(0, i + 1 - start).last() == t[i - start]);
            assert(t[i - start] == s@[i as int]);
            assert(d == digit_val(t[i - start]));
        }
        let next = match acc.checked_mul(10) {
            Some(m) => m.checked_add(d),
            None => None,
        };
        match next {
            Some(v) => {
                acc = v;
            },
            None => {
                proof {
                    assert(digits_val(t.subrange(0, i + 1 - start)) > u64::MAX);
                    lemma_digits_val_prefix_monotone(t, i + 1 - start, t.len() as int);
                    assert(t.subrange(0, t.len() as int) =~= t);
                    if all_digits(t) {
                        assert(digits_val(t) > u64::MAX);
                    }
                }
                return None;
            },
        }
        i += 1;
    }
    proof {
        assert(t.subrange(0, t.len() as int) =~= t);
        assert(all_digits(t));
    }
    Some(acc)
}

/// The id the library mints for a node created at a given time.
pub open spec fn spec_node_id(now_ms: u64) -> Seq<char> {
    "node_"@ + spec_dec(now_ms as nat)
}


pub proof fn lemma_spec_dec_len(n: nat)
    ensures
        spec_dec(n).len() >= 1,
        (spec_dec(n).len() == 1) == (n < 10),
    decreases n,
{
    if n >= 10 {
        lemma_spec_dec_len(n / 10);
    }
}

/// Decimal notation is one-to-one: equal digit runs mean equal numbers.
pub proof fn lemma_spec_dec_injective(a: nat, b: nat)
    requires
        spec_dec(a) == spec_dec(b),
    ensures
        a == b,
    decreases a,
{
    lemma_spec_dec_len(a);
    lemma_spec_dec_len(b);
    if a < 10 && b < 10 {
        assert(spec_dec(a)[0] == spec_digit(a));
        assert(spec_dec(b)[0] == spec_digit(b));
        assert(a == b);
    } else if a >= 10 && b >= 10 {
        assert(spec_dec(a).last() == spec_digit(a % 10));
        assert(spec_dec(b).last() == spec_digit(b % 10));
        assert(a % 10 == b % 10);
        assert(spec_dec(a).drop_last() =~= spec_dec(a / 10));
        assert(spec_dec(b).drop_last() =~= spec_dec(b / 10));
        lemma_spec_dec_injective(a / 10, b / 10);
    } else {
        assert(false);
    }
}

/// Minted ids are one-to-one in the counter value.
pub proof fn lemma_node_id_injective(a: u64, b: u64)
    requires
        spec_node_id(a) == spec_node_id(b),
    ensures
        a == b,
{
    let p = "node_"@;
    assert(spec_dec(a as nat) =~= spec_node_id(a).subrange(
        p.len() as int,
        spec_node_id(a).len() as int,
    ));
    assert(spec_dec(b as nat) =~= spec_node_id(b).subrange(
        p.len() as int,
        spec_node_id(b).len() as int,
    ));
    lemma_spec_dec_injective(a as nat, b as nat);
}

/// A minted id starts with the letter of its fixed prefix, so it is never
/// the synthetic root's id.
pub proof fn lemma_node_id_not_root(k: u64)
    ensures
        spec_node_id(k) != "root"@,
{
    reveal_strlit("node_");
    reveal_strlit("root");
    assert(spec_node_id(k)[0] == 'n');
    assert("root"@[0] == 'r');
    assert(spec_node_id(k) != "root"@);
}

/// Mint the id of a node created now.
pub fn mint_id(now_ms: u64) -> (r: String)
    ensures
        r@ == spec_node_id(now_ms),
{
    let mut s = "node_".to_owned();
    let d = u64_to_dec(now_ms);
    s.append(d.as_str());
    s
}

} // verus!
