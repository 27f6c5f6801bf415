//! Text produced from bytes and numbers.
use vstd::prelude::*;
use vstd::utf8::{decode_utf8, valid_utf8};

verus! {

/// The decimal digits of `n`, most significant first, without leading zeros.
pub open spec fn decimal(n: nat) -> Seq<char>
    decreases n,
{
    if n < 10 {
        seq![(48 + n) as char]
    } else {
        decimal(n / 10).push((48 + n % 10) as char)
    }
}

/// `s` padded on the left with `c` up to `width` characters.
pub open spec fn pad_left(s: Seq<char>, width: nat, c: char) -> Seq<char> {
    if s.len() >= width {
        s
    } else {
        Seq::new((width - s.len()) as nat, |_i: int| c) + s
    }
}

/// The digit `d` as text.
fn digit_text(d: u64) -> (r: &'static str)
    requires
        d < 10,
    ensures
        r@ == seq![(48 + d) as char],
{
    match d {
        0 => {
            proof {
                reveal_strlit("0");
            }
            "0"
        },
        1 => {
            proof {
                reveal_strlit("1");
            }
            "1"
        },
        2 => {
            proof {
                reveal_strlit("2");
            }
            "2"
        },
        3 => {
            proof {
                reveal_strlit("3");
            }
            "3"
        },
        4 => {
            proof {
                reveal_strlit("4");
            }
            "4"
        },
        5 => {
            proof {
                reveal_strlit("5");
            }
            "5"
        },
        6 => {
            proof {
                reveal_strlit("6");
            }
            "6"
        },
        7 => {
            proof {
                reveal_strlit("7");
            }
            "7"
        },
        8 => {
            proof {
                reveal_strlit("8");
            }
            "8"
        },
        _ => {
            proof {
                reveal_strlit("9");
            }
            "9"
        },
    }
}

/// The decimal digits of `n`, and how many there are.
fn decimal_text(n: u64) -> (r: (String, usize))
    ensures
        r.0@ == decimal(n as nat),
        r.1 == decimal(n as nat).len(),
    decreases n,
{
    if n < 10 {
        (String::from_str(digit_text(n)), 1)
    } else {
        let (mut s, len) = decimal_text(n / 10);
        s.append(digit_text(n % 10));
        proof {
            lemma_decimal_len_bound(n as nat);
        }
        (s, len + 1)
    }
}

/// Ten to the power `k`.
pub open spec fn pow10(k: nat) -> nat
    decreases k,
{
    if k == 0 {
        1
    } else {
        10 * pow10((k - 1) as nat)
    }
}

/// Below 10^k a number has at most k decimal digits.
proof fn lemma_decimal_len_pow(n: nat, k: nat)
    requires
        n < pow10(k),
        k >= 1,
    ensures
        1 <= decimal(n).len() <= k,
    decreases k,
{
    if n >= 10 {
        assert(pow10(k) == 10 * pow10((k - 1) as nat));
        if k == 1 {
            assert(pow10(0) == 1);
        }
        assert(n / 10 < pow10((k - 1) as nat));
        lemma_decimal_len_pow(n / 10, (k - 1) as nat);
    }
}

/// A number below 2^64 has at most twenty decimal digits.
proof fn lemma_decimal_len_bound(n: nat)
    requires
        n < 0x1_0000_0000_0000_0000,
    ensures
        1 <= decimal(n).len() <= 20,
{
    reveal_with_fuel(pow10, 21);
    assert(pow10(20) == 100000000000000000000nat);
    lemma_decimal_len_pow(n, 20);
}

/// The text that `String::from_utf8_lossy` makes of `b`: the decoded text, with each
/// ill-formed sequence replaced by U+FFFD.
pub uninterp spec fn lossy_utf8(b: Seq<u8>) -> Seq<char>;

/// The text of `b` read as UTF-8: exact when `b` is well-formed, repaired otherwise.
pub open spec fn lossy_text(b: Seq<u8>) -> Seq<char> {
    if valid_utf8(b) {
        decode_utf8(b)
    } else {
        lossy_utf8(b)
    }
}

/// `String::from_utf8_lossy(b)`, owned. The contract says that the result is a function
/// of `b` alone, and what it is when `b` is well-formed UTF-8; how ill-formed input is
/// repaired is left unsaid.
#[verifier::external_body]
pub(crate) fn utf8_lossy(b: &[u8]) -> (r: String)
    ensures
        valid_utf8(b@) ==> r@ == decode_utf8(b@),
        !valid_utf8(b@) ==> r@ == lossy_utf8(b@),
{
    String::from_utf8_lossy(b).into_owned()
}

/// The text `'<user_key>' @ <seq> : <value_type>`, as the internal keys print themselves.
pub open spec fn internal_key_text(user_key: Seq<char>, seq: u64, t: u8) -> Seq<char> {
    seq!['\''] + user_key + seq!['\'', ' ', '@', ' '] + decimal(seq as nat) + seq![' ', ':', ' ']
        + decimal(t as nat)
}

/// The text `'<user_key>' @ <seq> : <value_type>`.
pub(crate) fn format_internal_key(user_key: &str, seq: u64, t: u8) -> (r: String)
    ensures
        r@ == internal_key_text(user_key@, seq, t),
{
    proof {
        reveal_strlit("'");
        reveal_strlit("' @ ");
        reveal_strlit(" : ");
    }
    let mut s = String::from_str("'");
    s.append(user_key);
    s.append("' @ ");
    let (d, _) = decimal_text(seq);
    s.append(d.as_str());
    s.append(" : ");
    let (d2, _) = decimal_text(t as u64);
    s.append(d2.as_str());
    proof {
        assert(s@ =~= internal_key_text(user_key@, seq, t));
    }
    s
}

/// The name of log file `n`: its number in decimal, zero-padded to six digits, then `.log`.
pub open spec fn log_file_name(n: u64) -> Seq<char> {
    pad_left(decimal(n as nat), 6, '0') + seq!['.', 'l', 'o', 'g']
}

/// The decimal text of `n`, zero-padded to six digits, then `.log`.
pub(crate) fn format_log_file_name(n: u64) -> (r: String)
    ensures
        r@ == log_file_name(n),
{
    proof {
        reveal_strlit("0");
        reveal_strlit(".log");
    }
    let (d, len) = decimal_text(n);
    let mut s = String::new();
    let mut i: usize = len;
    while i < 6
        invariant
            len <= i <= 6 || (len > 6 && i == len),
            len == d@.len(),
            s@ == Seq::new((i - len) as nat, |_j: int| '0'),
        decreases 6 - i,
    {
        let ghost before = s@;
        s.append("0");
        proof {
            reveal_strlit("0");
            assert(s@ == before + seq!['0']);
            assert(s@ =~= Seq::new((i + 1 - len) as nat, |_j: int| '0'));
        }
        i = i + 1;
    }
    s.append(d.as_str());
    s.append(".log");
    proof {
        if len < 6 {
            assert(s@ =~= pad_left(decimal(n as nat), 6, '0') + seq!['.', 'l', 'o', 'g']);
        } else {
            assert(s@ =~= pad_left(decimal(n as nat), 6, '0') + seq!['.', 'l', 'o', 'g']);
        }
    }
    s
}

/// The text `VersionEdit: invalid tag(<tag>)`.
pub(crate) fn format_invalid_tag(tag: u32) -> (r: String)
    ensures
        r@ == "VersionEdit: invalid tag("@ + decimal(tag as nat) + ")"@,
{
    let mut s = String::from_str("VersionEdit: invalid tag(");
    let (d, _) = decimal_text(tag as u64);
    s.append(d.as_str());
    s.append(")");
    s
}

/// The decimal text of `i`, with a minus sign when negative.
pub open spec fn int_decimal(i: int) -> Seq<char> {
    if i < 0 {
        seq!['-'] + decimal((-i) as nat)
    } else {
        decimal(i as nat)
    }
}

/// The decimal text of `n`.
pub(crate) fn format_u64(n: u64) -> (r: String)
    ensures
        r@ == decimal(n as nat),
{
    decimal_text(n).0
}

/// The decimal text of `n`, with a minus sign when negative.
pub(crate) fn format_i32(n: i32) -> (r: String)
    ensures
        r@ == int_decimal(n as int),
{
    if n < 0 {
        proof {
            reveal_strlit("-");
        }
        let m: u64 = (0i64 - n as i64) as u64;
        let mut s = String::from_str("-");
        let (d, _) = decimal_text(m);
        s.append(d.as_str());
        s
    } else {
        decimal_text(n as u64).0
    }
}

} // verus!
