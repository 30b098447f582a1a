//! Start-up configuration: the capacity bound and the listen port, read
//! from command-line flags with documented defaults.

use vstd::prelude::*;
use crate::command::seq_views;

verus! {

/// The character is a decimal digit.
pub open spec fn is_digit(c: char) -> bool {
    '0' <= c <= '9'
}

/// The numeric value of a digit character.
pub open spec fn digit_val(c: char) -> int {
    c as int - 48
}

/// Every character is a decimal digit.
pub open spec fn all_digits(s: Seq<char>) -> bool {
    forall|i: int| 0 <= i < s.len() ==> is_digit(#[trigger] s[i])
}

/// The numeric value of a digit string, most significant digit first.
pub open spec fn digits_val(s: Seq<char>) -> int
    decreases s.len(),
{
    if s.len() == 0 {
        0
    } else {
        digits_val(s.drop_last()) * 10 + digit_val(s.last())
    }
}

/// The digits of an unsigned numeral: one leading plus sign is allowed
/// and ignored.
pub open spec fn unsigned_digits(s: Seq<char>) -> Seq<char> {
    if s.len() > 0 && s[0] == '+' {
        s.skip(1)
    } else {
        s
    }
}

/// The text reads as an unsigned decimal numeral no greater than `max`:
/// an optional plus sign, one digit or more, nothing else.
pub open spec fn parse_ok(s: Seq<char>, max: int) -> bool {
    let d = unsigned_digits(s);
    d.len() > 0 && all_digits(d) && digits_val(d) <= max
}

/// Appending digit characters never lowers the numeric value.
proof fn lemma_digits_monotone(s: Seq<char>, i: int)
    requires
        0 <= i <= s.len(),
        forall|j: int| i <= j < s.len() ==> is_digit(#[trigger] s[j]),
        digits_val(s.take(i)) >= 0,
    ensures
        digits_val(s) >= digits_val(s.take(i)),
    decreases s.len() - i,
{
    if i == s.len() {
        assert(s.take(i) =~= s);
    } else {
        assert(s.take(i + 1).drop_last() =~= s.take(i));
        assert(s.take(i + 1).last() == s[i]);
        assert(digits_val(s.take(i + 1)) == digits_val(s.take(i)) * 10 + digit_val(s[i]));
        lemma_digits_monotone(s, i + 1);
    }
}

/// Reads an unsigned decimal numeral of at most `max` from the whole
/// text, exactly as the standard numeric parser accepts one.
pub fn parse_unsigned(s: &str, max: u64) -> (r: Option<u64>)
    ensures
        match r {
            Option::Some(v) => parse_ok(s@, max as int) && v == digits_val(unsigned_digits(s@))
                && v <= max,
            Option::None => !parse_ok(s@, max as int),
        },
{
    let n = s.unicode_len();
    let mut i: usize = 0;
    if n > 0 && s.get_char(0) == '+' {
        i = 1;
    }
    let ghost d = unsigned_digits(s@);
    let ghost start = i as int;
    proof {
        assert(d =~= s@.skip(start));
    }
    if i >= n {
        proof {
            assert(d.len() == 0);
        }
        return None;
    }
    let mut acc: u64 = 0;
    let first = i;
    while i < n
        invariant
            n == s@.len(),
            first <= i <= n,
            start == first as int,
            d == unsigned_digits(s@),
            d =~= s@.skip(start),
            all_digits(d.take(i - start)),
            acc == digits_val(d.take(i - start)),
            acc <= max,
        decreases n - i,
    {
        let c = s.get_char(i);
        let code = c as u32;
        proof {
            assert(d[i - start] == s@[i as int]);
            assert(d.take(i - start + 1).drop_last() =~= d.take(i - start));
            assert(d.take(i - start + 1).last() == d[i - start]);
        }
        if code < 48 || code > 57 {
            proof {
                assert(!is_digit(d[i - start]));
            }
            return None;
        }
        let dv = code - 48;
        let t: u128 = (acc as u128) * 10 + (dv as u128);
        proof {
            assert(digits_val(d.take(i - start + 1)) == t);
        }
        if t > (max as u128) {
            proof {
                if all_digits(d) {
                    lemma_digits_monotone(d, i - start + 1);
                }
            }
            return None;
        }
        acc = t as u64;
        i = i + 1;
    }
    proof {
        assert(d.take(n - start) =~= d);
    }
    Some(acc)
}

/// The start-up configuration: the cache capacity and the listen port.
#[derive(Debug)]
pub struct Flags {
    pub capacity: usize,
    pub port: u16,
}

/// What the flag walk yields from position `i` onward, with `cap` and
/// `port` gathered so far: `-c` takes the next word as the capacity, `-p`
/// the next word as the port; a missing or unreadable value, or an
/// unknown flag, is an error naming the fault.
pub open spec fn spec_flags(args: Seq<Seq<char>>, i: int, cap: int, port: int) -> Result<
    (int, int),
    Seq<char>,
>
    decreases args.len() - i,
{
    if i < 0 || i >= args.len() {
        Result::Ok((cap, port))
    } else if args[i] == "-c"@ {
        if i + 1 >= args.len() {
            Result::Err("Missing value for -c"@)
        } else if !parse_ok(args[i + 1], usize::MAX as int) {
            Result::Err("Invalid concurrency value"@)
        } else {
            spec_flags(args, i + 2, digits_val(unsigned_digits(args[i + 1])), port)
        }
    } else if args[i] == "-p"@ {
        if i + 1 >= args.len() {
            Result::Err("Missing value for -p"@)
        } else if !parse_ok(args[i + 1], u16::MAX as int) {
            Result::Err("Invalid port value"@)
        } else {
            spec_flags(args, i + 2, cap, digits_val(unsigned_digits(args[i + 1])))
        }
    } else {
        Result::Err("Unknown flag: "@ + args[i])
    }
}

/// Reads the flags from the argument words, the program name first, with
/// the documented defaults: capacity one hundred, port 6379.
pub fn parse_flags(args: &Vec<String>) -> (r: Result<Flags, String>)
    ensures
        match r {
            Result::Ok(f) => spec_flags(seq_views(args@), 1, 100, 6379) == Result::<
                (int, int),
                Seq<char>,
            >::Ok((f.capacity as int, f.port as int)),
            Result::Err(e) => spec_flags(seq_views(args@), 1, 100, 6379) matches Result::Err(m)
                && m == e@,
        },
{
    let ghost av = seq_views(args@);
    let mut capacity: usize = 100;
    let mut port: u16 = 6379;
    let mut i: usize = 1;
    let n = args.len();
    let c_flag = String::from_str("-c");
    let p_flag = String::from_str("-p");
    while i < n
        invariant
            n == args@.len(),
            av == seq_views(args@),
            c_flag@ == "-c"@,
            p_flag@ == "-p"@,
            i >= 1,
            spec_flags(av, 1, 100, 6379) == spec_flags(av, i as int, capacity as int, port as int),
        decreases n - i,
    {
        proof {
            assert(av[i as int] == args@[i as int]@);
        }
        if args[i] == c_flag {
            if i + 1 >= n {
                return Err(String::from_str("Missing value for -c"));
            }
            proof {
                assert(av[i + 1] == args@[i + 1]@);
            }
            match parse_unsigned(args[i + 1].as_str(), usize::MAX as u64) {
                None => {
                    return Err(String::from_str("Invalid concurrency value"));
                },
                Some(v) => {
                    capacity = v as usize;
                },
            }
            i = i + 2;
        } else if args[i] == p_flag {
            if i + 1 >= n {
                return Err(String::from_str("Missing value for -p"));
            }
            proof {
                assert(av[i + 1] == args@[i + 1]@);
            }
            match parse_unsigned(args[i + 1].as_str(), u16::MAX as u64) {
                None => {
                    return Err(String::from_str("Invalid port value"));
                },
                Some(v) => {
                    port = v as u16;
                },
            }
            i = i + 2;
        } else {
            let mut e = String::from_str("Unknown flag: ");
            e.append(args[i].as_str());
            return Err(e);
        }
    }
    Ok(Flags { capacity, port })
}

} // verus!
