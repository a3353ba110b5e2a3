//! Segment file naming: a segment of generation `g` lives in a file named by
//! `g` as a decimal integer with the extension `.log`, and recovery sorts the
//! generations it finds in a directory ascending.
use vstd::prelude::*;

verus! {

/// The decimal digit character of a value below ten.
pub open spec fn digit_char(d: int) -> char {
    ((0x30 + d) as u32) as char
}

/// The decimal digits of `n`, most significant first.
pub open spec fn spec_dec_chars(n: u64) -> Seq<char>
    decreases n,
{
    if n < 10 {
        seq![digit_char(n as int)]
    } else {
        spec_dec_chars(n / 10).push(digit_char((n % 10) as int))
    }
}

/// The name of generation `n`'s segment file.
pub open spec fn spec_log_name(n: u64) -> Seq<char> {
    spec_dec_chars(n) + ".log"@
}

/// A decimal digit character.
pub open spec fn is_digit(c: char) -> bool {
    0x30 <= c as int <= 0x39
}

/// Every character is a decimal digit.
pub open spec fn all_digits(s: Seq<char>) -> bool {
    forall|i: int| 0 <= i < s.len() ==> is_digit(#[trigger] s[i])
}

/// The value of decimal digit characters, most significant first.
pub open spec fn digits_value(s: Seq<char>) -> int
    decreases s.len(),
{
    if s.len() == 0 {
        0
    } else {
        digits_value(s.drop_last()) * 10 + (s.last() as int - 0x30)
    }
}

/// The generation a file name denotes: a non-empty run of decimal digits
/// whose value fits, followed by `.log`. Any other name is not a segment.
pub open spec fn spec_gen_of_name(s: Seq<char>) -> Option<u64> {
    if s.len() >= 5 && s.subrange(s.len() - 4, s.len() as int) == ".log"@ && all_digits(
        s.subrange(0, s.len() - 4),
    ) && digits_value(s.subrange(0, s.len() - 4)) <= u64::MAX {
        Some(digits_value(s.subrange(0, s.len() - 4)) as u64)
    } else {
        None
    }
}

/// The one-character string of a decimal digit.
fn digit_str(d: u64) -> (s: &'static str)
    requires
        d < 10,
    ensures
        s@ == seq![digit_char(d as int)],
{
    proof {
        reveal_strlit("0");
        reveal_strlit("1");
        reveal_strlit("2");
        reveal_strlit("3");
        reveal_strlit("4");
        reveal_strlit("5");
        reveal_strlit("6");
        reveal_strlit("7");
        reveal_strlit("8");
        reveal_strlit("9");
    }
    if d == 0 {
        "0"
    } else if d == 1 {
        "1"
    } else if d == 2 {
        "2"
    } else if d == 3 {
        "3"
    } else if d == 4 {
        "4"
    } else if d == 5 {
        "5"
    } else if d == 6 {
        "6"
    } else if d == 7 {
        "7"
    } else if d == 8 {
        "8"
    } else {
        "9"
    }
}

/// Appends the decimal digits of `n`.
fn push_dec_chars(n: u64, out: &mut String)
    ensures
        final(out)@ == old(out)@ + spec_dec_chars(n),
    decreases n,
{
    if n < 10 {
        out.append(digit_str(n));
        proof {
            assert(final(out)@ =~= old(out)@ + spec_dec_chars(n));
        }
    } else {
        push_dec_chars(n / 10, out);
        out.append(digit_str(n % 10));
        proof {
            assert(final(out)@ =~= old(out)@ + spec_dec_chars(n));
        }
    }
}

/// The file name of generation `gen`'s segment: its decimal digits followed
/// by `.log`.
pub fn new_log_path(gen: u64) -> (name: String)
    ensures
        name@ == spec_log_name(gen),
{
    let mut name = String::new();
    push_dec_chars(gen, &mut name);
    name.append(".log");
    proof {
        assert(name@ =~= spec_log_name(gen));
    }
    name
}

/// Parses the generation a file name denotes, if it is a segment's name.
pub fn gen_of_name(name: &String) -> (r: Option<u64>)
    ensures
        r == spec_gen_of_name(name@),
{
    proof {
        reveal_strlit(".log");
    }
    let s = name.as_str();
    let n: usize = s.unicode_len();
    if n < 5 {
        return None;
    }
    let c1: char = s.get_char(n - 4);
    let c2: char = s.get_char(n - 3);
    let c3: char = s.get_char(n - 2);
    let c4: char = s.get_char(n - 1);
    proof {
        let suff = name@.subrange(name@.len() - 4, name@.len() as int);
        assert(suff[0] == c1 && suff[1] == c2 && suff[2] == c3 && suff[3] == c4);
    }
    if !(c1 == '.' && c2 == 'l' && c3 == 'o' && c4 == 'g') {
        proof {
            let suff = name@.subrange(name@.len() - 4, name@.len() as int);
            if suff == ".log"@ {
                assert(suff[0] == '.' && suff[1] == 'l' && suff[2] == 'o' && suff[3] == 'g');
            }
        }
        return None;
    }
    proof {
        assert(name@.subrange(name@.len() - 4, name@.len() as int) =~= ".log"@);
    }
    let ghost stem = name@.subrange(0, name@.len() - 4);
    let mut val: u64 = 0;
    let mut i: usize = 0;
    proof {
        assert(stem.subrange(0, 0) =~= Seq::<char>::empty());
    }
    while i < n - 4
        invariant
            name@ == s@,
            n == name@.len(),
            n >= 5,
            stem == name@.subrange(0, name@.len() - 4),
            i <= n - 4,
            all_digits(stem.subrange(0, i as int)),
            val == digits_value(stem.subrange(0, i as int)),
        decreases n - 4 - i,
    {
        let c: char = s.get_char(i);
        let u: u32 = c as u32;
        proof {
            assert(stem[i as int] == name@[i as int]);
        }
        if u < 0x30 || u > 0x39 {
            proof {
                assert(!is_digit(stem[i as int]));
            }
            return None;
        }
        let d: u64 = (u - 0x30) as u64;
        proof {
            assert(stem.subrange(0, i as int + 1).drop_last() =~= stem.subrange(0, i as int));
            assert(stem.subrange(0, i as int + 1).last() == stem[i as int]);
            assert(all_digits(stem.subrange(0, i as int + 1))) by {
                assert forall|j: int| 0 <= j < i + 1 implies is_digit(
                    #[trigger] stem.subrange(0, i as int + 1)[j],
                ) by {
                    if j < i {
                        assert(stem.subrange(0, i as int)[j] == stem[j]);
                    }
                }
            }
        }
        let hi = match val.checked_mul(10) {
            Some(x) => x,
            None => {
                proof {
                    if all_digits(stem) {
                        lemma_digits_value_nonneg(stem.subrange(0, i as int));
                        lemma_digits_value_grows(stem, i as int + 1);
                    }
                }
                return None;
            },
        };
        let sum = match hi.checked_add(d) {
            Some(x) => x,
            None => {
                proof {
                    if all_digits(stem) {
                        lemma_digits_value_grows(stem, i as int + 1);
                    }
                }
                return None;
            },
        };
        val = sum;
        i = i + 1;
    }
    proof {
        assert(stem.subrange(0, stem.len() as int) =~= stem);
    }
    Some(val)
}

/// The digits' value never shrinks as more digits follow: the value of the
/// whole run is at least the value of any prefix.
proof fn lemma_digits_value_grows(s: Seq<char>, i: int)
    requires
        0 <= i <= s.len(),
        all_digits(s),
    ensures
        digits_value(s) >= digits_value(s.subrange(0, i)),
        digits_value(s) >= 0,
    decreases s.len(),
{
    lemma_digits_value_nonneg(s);
    if i == s.len() {
        assert(s.subrange(0, i) =~= s);
    } else {
        assert(s.drop_last() =~= s.subrange(0, s.len() - 1));
        lemma_digits_value_grows(s.drop_last(), i);
        assert(s.drop_last().subrange(0, i) =~= s.subrange(0, i));
        lemma_digits_value_nonneg(s.drop_last());
        assert(digits_value(s.drop_last()) * 10 >= digits_value(s.drop_last())) by (nonlinear_arith)
            requires
                digits_value(s.drop_last()) >= 0,
        ;
        assert(s.last() as int - 0x30 >= 0);
    }
}

/// Decimal digits denote a non-negative value.
proof fn lemma_digits_value_nonneg(s: Seq<char>)
    requires
        all_digits(s),
    ensures
        digits_value(s) >= 0,
    decreases s.len(),
{
    if s.len() > 0 {
        assert(s.drop_last() =~= s.subrange(0, s.len() - 1));
        assert(all_digits(s.drop_last()));
        lemma_digits_value_nonneg(s.drop_last());
        assert(digits_value(s.drop_last()) * 10 >= 0) by (nonlinear_arith)
            requires
                digits_value(s.drop_last()) >= 0,
        ;
    }
}

/// Inserts a generation into an ascending list, keeping it ascending and
/// duplicate-free.
fn insert_sorted(out: &mut Vec<u64>, g: u64)
    requires
        forall|a: int, b: int| 0 <= a < b < old(out)@.len() ==> old(out)@[a] < old(out)@[b],
    ensures
        forall|a: int, b: int| 0 <= a < b < final(out)@.len() ==> final(out)@[a] < final(out)@[b],
        forall|x: u64| final(out)@.contains(x) <==> (old(out)@.contains(x) || x == g),
{
    let mut i: usize = 0;
    while i < out.len()
        invariant
            i <= out@.len(),
            forall|a: int, b: int| 0 <= a < b < out@.len() ==> out@[a] < out@[b],
            out == old(out),
            forall|j: int| 0 <= j < i ==> out@[j] < g,
        decreases out@.len() - i,
    {
        if out[i] == g {
            proof {
                assert(out@.contains(g)) by {
                    assert(out@[i as int] == g);
                }
            }
            return ;
        }
        if out[i] > g {
            out.insert(i, g);
            proof {
                assert forall|x: u64| out@.contains(x) <==> (old(out)@.contains(x) || x == g) by {
                    if out@.contains(x) {
                        let j = choose|j: int| 0 <= j < out@.len() && out@[j] == x;
                        if j < i {
                            assert(old(out)@[j] == x);
                        } else if j > i {
                            assert(old(out)@[j - 1] == x);
                        }
                    }
                    if old(out)@.contains(x) {
                        let j = choose|j: int| 0 <= j < old(out)@.len() && old(out)@[j] == x;
                        if j < i {
                            assert(out@[j] == x);
                        } else {
                            assert(out@[j + 1] == x);
                        }
                    }
                    if x == g {
                        assert(out@[i as int] == x);
                    }
                }
            }
            return ;
        }
        i = i + 1;
    }
    out.push(g);
    proof {
        assert forall|x: u64| out@.contains(x) <==> (old(out)@.contains(x) || x == g) by {
            if out@.contains(x) {
                let j = choose|j: int| 0 <= j < out@.len() && out@[j] == x;
                if j < out@.len() - 1 {
                    assert(old(out)@[j] == x);
                }
            }
            if old(out)@.contains(x) {
                let j = choose|j: int| 0 <= j < old(out)@.len() && old(out)@[j] == x;
                assert(out@[j] == x);
            }
            if x == g {
                assert(out@[out@.len() - 1] == x);
            }
        }
    }
}

/// The generations the given file names denote, ascending and without
/// duplicates: the order recovery replays segments in.
pub fn sorted_gen_list(names: &Vec<String>) -> (r: Vec<u64>)
    ensures
        forall|a: int, b: int| 0 <= a < b < r@.len() ==> r@[a] < r@[b],
        forall|g: u64|
            r@.contains(g) <==> exists|i: int|
                0 <= i < names@.len() && spec_gen_of_name(#[trigger] names@[i]@) == Some(g),
{
    let mut out: Vec<u64> = Vec::new();
    let mut i: usize = 0;
    while i < names.len()
        invariant
            i <= names@.len(),
            forall|a: int, b: int| 0 <= a < b < out@.len() ==> out@[a] < out@[b],
            forall|g: u64|
                out@.contains(g) <==> exists|j: int|
                    0 <= j < i && spec_gen_of_name(#[trigger] names@[j]@) == Some(g),
        decreases names@.len() - i,
    {
        match gen_of_name(&names[i]) {
            Some(g) => {
                insert_sorted(&mut out, g);
                proof {
                    assert forall|x: u64|
                        out@.contains(x) <==> exists|j: int|
                            0 <= j < i + 1 && spec_gen_of_name(#[trigger] names@[j]@) == Some(
                                x,
                            ) by {
                        if out@.contains(x) && x != g {
                        }
                        if x == g {
                            assert(spec_gen_of_name(names@[i as int]@) == Some(x));
                        }
                    }
                }
            },
            None => {
                proof {
                    assert forall|x: u64|
                        out@.contains(x) <==> exists|j: int|
                            0 <= j < i + 1 && spec_gen_of_name(#[trigger] names@[j]@) == Some(
                                x,
                            ) by {
                        if exists|j: int|
                            0 <= j < i + 1 && spec_gen_of_name(#[trigger] names@[j]@) == Some(x) {
                            let j = choose|j: int|
                                0 <= j < i + 1 && spec_gen_of_name(#[trigger] names@[j]@) == Some(
                                    x,
                                );
                            assert(j < i);
                        }
                    }
                }
            },
        }
        i = i + 1;
    }
    out
}

} // verus!

verus! {

/// The decimal digits of `n` are digits and denote `n`.
proof fn lemma_dec_chars_value(n: u64)
    ensures
        all_digits(spec_dec_chars(n)),
        digits_value(spec_dec_chars(n)) == n,
        spec_dec_chars(n).len() >= 1,
    decreases n,
{
    if n < 10 {
        let s = spec_dec_chars(n);
        assert(s.drop_last() =~= Seq::<char>::empty());
        assert(digits_value(s) == digits_value(Seq::<char>::empty()) * 10 + (s.last() as int
            - 0x30));
        assert(s.last() as int == 0x30 + n);
    } else {
        lemma_dec_chars_value(n / 10);
        let p = spec_dec_chars(n / 10);
        let s = spec_dec_chars(n);
        assert(s == p.push(digit_char((n % 10) as int)));
        assert(s.drop_last() =~= p);
        assert(s.last() == digit_char((n % 10) as int));
        assert(s.last() as int == 0x30 + (n % 10) as int);
        assert(digits_value(s) == (n / 10) * 10 + (n % 10) as int);
        assert(n == (n / 10) * 10 + n % 10) by {
            vstd::arithmetic::div_mod::lemma_fundamental_div_mod(n as int, 10);
        }
        assert forall|i: int| 0 <= i < s.len() implies is_digit(#[trigger] s[i]) by {
            if i < p.len() {
                assert(s[i] == p[i]);
            }
        }
    }
}

/// Law: the name written for a generation parses back to that generation —
/// naming and name-parsing invert each other, so recovery finds exactly the
/// segments the store wrote.
pub proof fn lemma_log_name_round_trip(g: u64)
    ensures
        spec_gen_of_name(spec_log_name(g)) == Some(g),
{
    reveal_strlit(".log");
    lemma_dec_chars_value(g);
    let s = spec_log_name(g);
    let d = spec_dec_chars(g);
    assert(".log"@.len() == 4);
    assert(s.len() == d.len() + 4);
    assert(s.subrange(s.len() - 4, s.len() as int) =~= ".log"@);
    assert(s.subrange(0, s.len() - 4) =~= d);
}

} // verus!
