//! Decimal numerals on bytes: the value of a digit string (as used by the
//! `Content-Length` header and by string-typed response ids) and the decimal
//! representation of an integer (as used when a frame is produced).

use vstd::prelude::*;

verus! {

/// Whether `b` is an ASCII decimal digit.
pub open spec fn is_digit(b: u8) -> bool {
    48 <= b && b <= 57
}

/// Whether every byte of `s` is an ASCII decimal digit.
pub open spec fn all_digits(s: Seq<u8>) -> bool {
    forall|i: int| 0 <= i < s.len() ==> is_digit(s[i])
}

/// The value of a digit string, most significant digit first.
pub open spec fn digits_val(s: Seq<u8>) -> nat
    decreases s.len(),
{
    if s.len() == 0 {
        0
    } else {
        digits_val(s.drop_last()) * 10 + (if is_digit(s.last()) {
            (s.last() - 48) as nat
        } else {
            0
        })
    }
}

/// The non-negative base-10 reading of `s`: an optional leading `+`,
/// then at least one digit; anything else has no value.
pub open spec fn dec_value(s: Seq<u8>) -> Option<nat> {
    let t = if s.len() > 0 && s[0] == 43 {
        s.subrange(1, s.len() as int)
    } else {
        s
    };
    if t.len() > 0 && all_digits(t) {
        Some(digits_val(t))
    } else {
        None
    }
}

/// The decimal representation of `n`, without sign or leading zeros
/// (a single zero digit for zero).
pub open spec fn dec_repr(n: nat) -> Seq<u8>
    decreases n,
{
    if n < 10 {
        seq![(48 + n) as u8]
    } else {
        dec_repr(n / 10) + seq![(48 + n % 10) as u8]
    }
}

/// Appending further digits never decreases the value of a digit prefix.
proof fn lemma_digits_val_prefix_le(s: Seq<u8>, j: int, k: int)
    requires
        0 <= j <= k <= s.len(),
    ensures
        digits_val(s.subrange(0, j)) <= digits_val(s.subrange(0, k)),
    decreases k - j,
{
    if j < k {
        lemma_digits_val_prefix_le(s, j, k - 1);
        let p = s.subrange(0, k);
        assert(p.drop_last() =~= s.subrange(0, k - 1));
        assert(digits_val(s.subrange(0, k - 1)) <= digits_val(p));
    }
}

/// Every byte of `dec_repr(n)` is a digit, and there is at least one.
pub proof fn lemma_dec_repr_digits(n: nat)
    ensures
        dec_repr(n).len() >= 1,
        all_digits(dec_repr(n)),
    decreases n,
{
    if n >= 10 {
        lemma_dec_repr_digits(n / 10);
    }
}

/// Reading back the decimal representation yields the number itself.
pub proof fn lemma_digits_val_dec_repr(n: nat)
    ensures
        digits_val(dec_repr(n)) == n,
    decreases n,
{
    if n < 10 {
        let s = dec_repr(n);
        assert(s =~= seq![(48 + n) as u8]);
        assert(s.drop_last() =~= Seq::<u8>::empty());
        assert(digits_val(Seq::<u8>::empty()) == 0);
        assert(is_digit(s.last()));
        assert(digits_val(s) == 0 * 10 + (s.last() - 48) as nat);
        assert(digits_val(s) == n);
    } else {
        lemma_digits_val_dec_repr(n / 10);
        let s = dec_repr(n);
        assert(s.drop_last() =~= dec_repr(n / 10));
        assert(s.last() == (48 + n % 10) as u8);
        assert(is_digit(s.last()));
        assert(digits_val(s) == digits_val(s.drop_last()) * 10 + (s.last() - 48) as nat);
        assert(digits_val(s) == (n / 10) * 10 + n % 10);
        assert((n / 10) * 10 + n % 10 == n) by {
            vstd::arithmetic::div_mod::lemma_fundamental_div_mod(n as int, 10);
        }
    }
}

/// Parses `s` as a non-negative base-10 `u64`, mirroring how
/// `u64::from_str_radix(s, 10)` treats an optional leading `+`, and
/// rejecting empty input, non-digits, and values that do not fit.
pub fn parse_dec_u64(s: &[u8]) -> (r: Option<u64>)
    ensures
        match r {
            Some(v) => dec_value(s@) == Some(v as nat),
            None => match dec_value(s@) {
                Some(n) => n > u64::MAX,
                None => true,
            },
        },
{
    let n = s.len();
    let start: usize = if n > 0 && s[0] == 43 {
        1
    } else {
        0
    };
    let ghost t = s@.subrange(start as int, n as int);
    proof {
        if !(n > 0 && s@[0] == 43) {
            assert(t =~= s@);
        }
    }
    if start == n {
        return None;
    }
    let mut acc: u64 = 0;
    let mut i: usize = start;
    while i < n
        invariant
            start <= i <= n,
            start == 0 || start == 1,
            n == s@.len(),
            start == 1 ==> n > 0 && s@[0] == 43,
            start == 0 ==> !(n > 0 && s@[0] == 43) && t == s@,
            t == s@.subrange(start as int, n as int),
            t.len() > 0,
            all_digits(t.subrange(0, i - start)),
            acc as nat == digits_val(t.subrange(0, i - start)),
        decreases n - i,
    {
        let b = s[i];
        if b < 48 || b > 57 {
            proof {
                assert(!is_digit(t[i - start]));
            }
            return None;
        }
        let d = (b - 48) as u64;
        proof {
            let p = t.subrange(0, i - start + 1);
            assert(p.drop_last() =~= t.subrange(0, i - start));
            assert(p.last() == t[i - start]);
        }
        let step = match acc.checked_mul(10) {
            Some(m) => m.checked_add(d),
            None => None,
        };
        match step {
            Some(v) => {
                acc = v;
            },
            None => {
                proof {
                    assert(digits_val(t.subrange(0, i - start + 1)) > u64::MAX);
                    lemma_digits_val_prefix_le(t, i - start + 1, t.len() as int);
                    assert(t.subrange(0, t.len() as int) =~= t);
                }
                return None;
            },
        }
        i = i + 1;
    }
    proof {
        assert(t.subrange(0, t.len() as int) =~= t);
    }
    Some(acc)
}

/// `s` reversed.
pub open spec fn rev_bytes(s: Seq<u8>) -> Seq<u8> {
    Seq::new(s.len(), |i: int| s[s.len() - 1 - i])
}

/// The decimal digits of `n`, most significant first.
pub fn u64_to_dec(n: u64) -> (r: Vec<u8>)
    ensures
        r@ == dec_repr(n as nat),
{
    let mut tmp: Vec<u8> = Vec::new();
    let mut m: u64 = n;
    let d0 = (m % 10) as u8;
    proof {
        let t2 = tmp@.push((48 + (m as nat) % 10) as u8);
        assert(dec_repr(m as nat) =~= dec_repr(m as nat) + rev_bytes(tmp@));
        assert(rev_bytes(t2) =~= seq![(48 + (m as nat) % 10) as u8] + rev_bytes(tmp@));
        if m >= 10 {
            assert(dec_repr(m as nat) + rev_bytes(tmp@) =~= dec_repr((m as nat) / 10) + rev_bytes(t2));
        } else {
            assert(dec_repr(m as nat) + rev_bytes(tmp@) =~= rev_bytes(t2));
        }
    }
    tmp.push(48 + d0);
    m = m / 10;
    while m > 0
        invariant
            m > 0 ==> dec_repr(n as nat) == dec_repr(m as nat) + rev_bytes(tmp@),
            m == 0 ==> dec_repr(n as nat) == rev_bytes(tmp@),
        decreases m,
    {
        let d = (m % 10) as u8;
        proof {
            let t2 = tmp@.push((48 + (m as nat) % 10) as u8);
            assert(rev_bytes(t2) =~= seq![(48 + (m as nat) % 10) as u8] + rev_bytes(tmp@));
            if m >= 10 {
                assert(dec_repr(m as nat) + rev_bytes(tmp@) =~= dec_repr((m as nat) / 10) + rev_bytes(t2));
            } else {
                assert(dec_repr(m as nat) + rev_bytes(tmp@) =~= rev_bytes(t2));
            }
        }
        tmp.push(48 + d);
        m = m / 10;
    }
    let mut r: Vec<u8> = Vec::new();
    let mut j: usize = tmp.len();
    while j > 0
        invariant
            0 <= j <= tmp@.len(),
            r@.len() == tmp@.len() - j,
            forall|k: int| 0 <= k < r@.len() ==> r@[k] == tmp@[tmp@.len() - 1 - k],
        decreases j,
    {
        r.push(tmp[j - 1]);
        j = j - 1;
    }
    proof {
        assert(r@ =~= rev_bytes(tmp@));
    }
    r
}

} // verus!
