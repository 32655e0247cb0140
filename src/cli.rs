//! The command line: `<group> <command> --flag value ...` read into a command.
//!
//! A flag is written `--name value...` or `--name=value`. The values of a flag are the
//! arguments that follow it up to the next flag.
use vstd::prelude::*;

verus! {

pub open spec fn view_args(args: Seq<String>) -> Seq<Seq<char>> {
    args.map_values(|s: String| s@)
}

pub open spec fn is_flag(t: Seq<char>) -> bool {
    t.len() >= 2 && t[0] == '-' && t[1] == '-'
}

pub open spec fn flag_token(name: Seq<char>) -> Seq<char> {
    seq!['-', '-'] + name
}

/// `t` is `--name`.
pub open spec fn is_bare_flag(t: Seq<char>, name: Seq<char>) -> bool {
    t == flag_token(name)
}

/// `t` is `--name=value`.
pub open spec fn is_inline_flag(t: Seq<char>, name: Seq<char>) -> bool {
    t.len() > name.len() + 2 && t.take(name.len() + 2 as int) == flag_token(name) && t[name.len() + 2 as int] == '='
}

pub open spec fn names_flag(t: Seq<char>, name: Seq<char>) -> bool {
    is_bare_flag(t, name) || is_inline_flag(t, name)
}

/// The first flag at or after `j`; the end if there is none.
pub open spec fn next_flag(args: Seq<Seq<char>>, j: int) -> int
    decreases args.len() - j,
{
    if j >= args.len() {
        args.len() as int
    } else if is_flag(args[j]) {
        j
    } else {
        next_flag(args, j + 1)
    }
}

/// The first argument at or after `i` that names flag `name`.
pub open spec fn find_flag(args: Seq<Seq<char>>, name: Seq<char>, i: int) -> Option<int>
    decreases args.len() - i,
{
    if i >= args.len() {
        None
    } else if names_flag(args[i], name) {
        Some(i)
    } else {
        find_flag(args, name, i + 1)
    }
}

/// The values given to flag `name` where it first appears after the command.
pub open spec fn flag_values(args: Seq<Seq<char>>, name: Seq<char>) -> Option<Seq<Seq<char>>> {
    match find_flag(args, name, 2) {
        None => None,
        Some(i) => if is_bare_flag(args[i], name) {
            Some(args.subrange(i + 1, next_flag(args, i + 1)))
        } else {
            Some(seq![args[i].skip(name.len() + 3 as int)])
        },
    }
}

/// The value of a flag that takes one: `None` when absent, an error unless given once.
pub open spec fn spec_single(args: Seq<Seq<char>>, name: Seq<char>) -> Result<Option<Seq<char>>, ()> {
    match flag_values(args, name) {
        None => Ok(None),
        Some(v) => if v.len() == 1 {
            Ok(Some(v[0]))
        } else {
            Err(())
        },
    }
}

/// A switch: present without a value, or absent.
pub open spec fn spec_switch(args: Seq<Seq<char>>, name: Seq<char>) -> Result<bool, ()> {
    match flag_values(args, name) {
        None => Ok(false),
        Some(v) => if v.len() == 0 {
            Ok(true)
        } else {
            Err(())
        },
    }
}

/// The values of a flag that takes one or more.
pub open spec fn spec_multi(args: Seq<Seq<char>>, name: Seq<char>) -> Result<Option<Seq<Seq<char>>>, ()> {
    match flag_values(args, name) {
        None => Ok(None),
        Some(v) => if v.len() > 0 {
            Ok(Some(v))
        } else {
            Err(())
        },
    }
}

pub open spec fn digit_value(c: char) -> int {
    c as int - '0' as int
}

pub open spec fn all_digits(s: Seq<char>) -> bool {
    forall|i: int| 0 <= i < s.len() ==> '0' <= #[trigger] s[i] <= '9'
}

/// The number that the decimal digits `s` write.
pub open spec fn decimal_value(s: Seq<char>) -> int
    decreases s.len(),
{
    if s.len() == 0 {
        0
    } else {
        decimal_value(s.drop_last()) * 10 + digit_value(s.last())
    }
}

/// `s` read as an unsigned decimal number that fits in 64 bits.
pub open spec fn spec_parse_u64(s: Seq<char>) -> Option<u64> {
    if s.len() > 0 && all_digits(s) && decimal_value(s) <= u64::MAX {
        Some(decimal_value(s) as u64)
    } else {
        None
    }
}

/// `s` read as a signed decimal number that fits in 64 bits.
pub open spec fn spec_parse_i64(s: Seq<char>) -> Option<i64> {
    if s.len() > 1 && s[0] == '-' && all_digits(s.skip(1)) && decimal_value(s.skip(1)) <= 0x8000_0000_0000_0000 {
        Some((-decimal_value(s.skip(1))) as i64)
    } else if s.len() > 0 && all_digits(s) && decimal_value(s) <= i64::MAX {
        Some(decimal_value(s) as i64)
    } else {
        None
    }
}

/// Every flag after the command is one of `allowed`, and a flag comes right after it.
pub open spec fn flags_known(args: Seq<Seq<char>>, allowed: Seq<Seq<char>>) -> bool {
    &&& (args.len() > 2 ==> is_flag(args[2]))
    &&& forall|i: int|
        2 <= i < args.len() && is_flag(#[trigger] args[i]) ==> exists|k: int|
            0 <= k < allowed.len() && names_flag(args[i], #[trigger] allowed[k])
}

#[derive(Clone, Copy, Debug, PartialEq, Eq, Structural)]
pub enum CliError {
    /// No command of that name.
    UnknownCommand,
    /// A flag the command does not take, or an argument that belongs to no flag.
    UnexpectedArgument,
    /// A required flag is missing.
    MissingArgument,
    /// A flag has the wrong number of values, or a value that does not parse.
    InvalidValue,
}

/// Reads the value of the flag that takes one.
fn single(args: &Vec<String>, name: &str) -> (r: Result<Option<String>, CliError>)
    ensures
        match spec_single(view_args(args@), name@) {
            Ok(None) => r == Ok::<Option<String>, CliError>(None),
            Ok(Some(v)) => r matches Ok(Some(s)) && s@ == v,
            Err(_) => r == Err::<Option<String>, CliError>(CliError::InvalidValue),
        },
{
    match values_of(args, name) {
        None => Ok(None),
        Some(v) => {
            if v.len() == 1 {
                let mut v = v;
                let s = v.pop().unwrap();
                proof {
                    assert(v@.len() == 0);
                }
                Ok(Some(s))
            } else {
                Err(CliError::InvalidValue)
            }
        },
    }
}

fn switch(args: &Vec<String>, name: &str) -> (r: Result<bool, CliError>)
    ensures
        match spec_switch(view_args(args@), name@) {
            Ok(b) => r == Ok::<bool, CliError>(b),
            Err(_) => r == Err::<bool, CliError>(CliError::InvalidValue),
        },
{
    match values_of(args, name) {
        None => Ok(false),
        Some(v) => if v.len() == 0 {
            Ok(true)
        } else {
            Err(CliError::InvalidValue)
        },
    }
}

fn multi(args: &Vec<String>, name: &str) -> (r: Result<Option<Vec<String>>, CliError>)
    ensures
        match spec_multi(view_args(args@), name@) {
            Ok(None) => r == Ok::<Option<Vec<String>>, CliError>(None),
            Ok(Some(v)) => r matches Ok(Some(s)) && view_args(s@) == v,
            Err(_) => r == Err::<Option<Vec<String>>, CliError>(CliError::InvalidValue),
        },
{
    match values_of(args, name) {
        None => Ok(None),
        Some(v) => if v.len() > 0 {
            Ok(Some(v))
        } else {
            Err(CliError::InvalidValue)
        },
    }
}

/// Whether argument `t` is a flag.
fn token_is_flag(t: &String) -> (r: bool)
    ensures
        r == is_flag(t@),
{
    let s = t.as_str();
    let n = s.unicode_len();
    n >= 2 && s.get_char(0) == '-' && s.get_char(1) == '-'
}

/// 1 if `t` is `--name`, 2 if it is `--name=value`, 0 otherwise.
fn token_names(t: &String, name: &str) -> (r: u8)
    ensures
        r == 1 <==> is_bare_flag(t@, name@),
        r == 2 <==> is_inline_flag(t@, name@),
        r <= 2,
{
    let s = t.as_str();
    let n = s.unicode_len();
    let m = name.unicode_len();
    let ghost f = flag_token(name@);
    if n < 2 || m > n - 2 {
        proof {
            if is_inline_flag(t@, name@) {
                assert(false);
            }
            if is_bare_flag(t@, name@) {
                assert(t@.len() == f.len());
            }
        }
        return 0;
    }
    if s.get_char(0) != '-' || s.get_char(1) != '-' {
        proof {
            if is_bare_flag(t@, name@) {
                assert(t@[0] == f[0]);
                assert(t@[1] == f[1]);
            }
            if is_inline_flag(t@, name@) {
                assert(t@.take(name@.len() + 2 as int)[0] == f[0]);
                assert(t@.take(name@.len() + 2 as int)[1] == f[1]);
            }
        }
        return 0;
    }
    let mut i: usize = 0;
    while i < m
        invariant
            m == name@.len(),
            n == t@.len(),
            s@ == t@,
            f == flag_token(name@),
            m + 2 <= n,
            t@[0] == '-' && t@[1] == '-',
            i <= m,
            forall|k: int| 0 <= k < i ==> t@[k + 2] == #[trigger] name@[k],
        decreases m - i,
    {
        if s.get_char(i + 2) != name.get_char(i) {
            proof {
                assert(f[i + 2] == name@[i as int]);
                if is_bare_flag(t@, name@) {
                    assert(t@[i + 2] == f[i + 2]);
                }
                if is_inline_flag(t@, name@) {
                    assert(t@.take(name@.len() + 2 as int)[i + 2] == f[i + 2]);
                }
            }
            return 0;
        }
        i = i + 1;
    }
    proof {
        assert(t@.take(m + 2) =~= f);
    }
    if n == m + 2 {
        proof {
            assert(t@ =~= f);
        }
        1
    } else if s.get_char(m + 2) == '=' {
        2
    } else {
        0
    }
}

/// The first flag at or after `j`.
fn next_flag_exec(args: &Vec<String>, j: usize) -> (r: usize)
    requires
        j <= args@.len(),
    ensures
        r == next_flag(view_args(args@), j as int),
        j <= r <= args@.len(),
    decreases args@.len() - j,
{
    if j >= args.len() {
        args.len()
    } else if token_is_flag(&args[j]) {
        j
    } else {
        next_flag_exec(args, j + 1)
    }
}

fn find_flag_exec(args: &Vec<String>, name: &str, i: usize) -> (r: Option<usize>)
    requires
        i <= args@.len(),
    ensures
        r == match find_flag(view_args(args@), name@, i as int) {
            Some(k) => Some(k as usize),
            None => None::<usize>,
        },
        r matches Some(k) ==> i <= k < args@.len(),
    decreases args@.len() - i,
{
    if i >= args.len() {
        None
    } else if token_names(&args[i], name) != 0 {
        Some(i)
    } else {
        find_flag_exec(args, name, i + 1)
    }
}

fn clone_strings(args: &Vec<String>, from: usize, to: usize) -> (r: Vec<String>)
    requires
        from <= to <= args@.len(),
    ensures
        view_args(r@) == view_args(args@).subrange(from as int, to as int),
{
    let mut r: Vec<String> = Vec::new();
    let mut i: usize = from;
    while i < to
        invariant
            from <= i <= to,
            to <= args@.len(),
            view_args(r@) == view_args(args@).subrange(from as int, i as int),
        decreases to - i,
    {
        let ghost old_r = r@;
        r.push(args[i].clone());
        proof {
            assert(r@ == old_r.push(args@[i as int]));
            assert(view_args(old_r).len() == i - from);
            assert forall|k: int| 0 <= k < r@.len() implies #[trigger] view_args(r@)[k] == view_args(args@).subrange(from as int, i + 1)[k] by {
                assert(view_args(r@)[k] == r@[k]@);
                assert(view_args(args@)[from + k] == args@[from + k]@);
                if k < old_r.len() {
                    assert(view_args(old_r)[k] == old_r[k]@);
                    assert(view_args(old_r)[k] == view_args(args@).subrange(from as int, i as int)[k]);
                }
            }
            assert(view_args(r@) =~= view_args(args@).subrange(from as int, i + 1));
        }
        i = i + 1;
    }
    r
}

proof fn lemma_find_flag(args: Seq<Seq<char>>, name: Seq<char>, i: int)
    ensures
        find_flag(args, name, i) matches Some(k) ==> i <= k < args.len() && names_flag(args[k], name),
    decreases args.len() - i,
{
    if i < args.len() && !names_flag(args[i], name) {
        lemma_find_flag(args, name, i + 1);
    }
}

/// The values given to flag `name`.
fn values_of(args: &Vec<String>, name: &str) -> (r: Option<Vec<String>>)
    ensures
        r.is_some() == flag_values(view_args(args@), name@).is_some(),
        r matches Some(v) ==> view_args(v@) == flag_values(view_args(args@), name@).unwrap(),
{
    if args.len() < 2 {
        proof {
            assert(find_flag(view_args(args@), name@, 2) is None);
        }
        return None;
    }
    match find_flag_exec(args, name, 2) {
        None => None,
        Some(i) => {
            proof {
                assert(view_args(args@)[i as int] == args@[i as int]@);
                lemma_find_flag(view_args(args@), name@, 2);
            }
            if token_names(&args[i], name) == 1 {
                let end = next_flag_exec(args, i + 1);
                Some(clone_strings(args, i + 1, end))
            } else {
                let s = args[i].as_str();
                let n = s.unicode_len();
                let m = name.unicode_len();
                let value = String::from_str(s.substring_char(m + 3, n));
                let mut v: Vec<String> = Vec::new();
                v.push(value);
                proof {
                    assert(value@ =~= args@[i as int]@.skip(name@.len() + 3 as int));
                    assert(view_args(v@) =~= seq![view_args(args@)[i as int].skip(name@.len() + 3 as int)]);
                }
                Some(v)
            }
        },
    }
}

proof fn lemma_decimal_bound(s: Seq<char>)
    requires
        all_digits(s),
    ensures
        0 <= decimal_value(s),
    decreases s.len(),
{
    if s.len() > 0 {
        lemma_decimal_bound(s.drop_last());
    }
}

/// Reads decimal digits; `None` when `s` is empty, holds another character, or overflows.
fn parse_digits(s: &str, from: usize) -> (r: Option<u64>)
    requires
        from <= s@.len(),
    ensures
        r == (if s@.len() > from && all_digits(s@.skip(from as int)) && decimal_value(s@.skip(from as int)) <= u64::MAX {
            Some(decimal_value(s@.skip(from as int)) as u64)
        } else {
            None::<u64>
        }),
{
    let n = s.unicode_len();
    if n == from {
        return None;
    }
    let mut acc: u64 = 0;
    let mut i: usize = from;
    while i < n
        invariant
            n == s@.len(),
            from <= i <= n,
            all_digits(s@.subrange(from as int, i as int)),
            acc == decimal_value(s@.subrange(from as int, i as int)),
        decreases n - i,
    {
        let c = s.get_char(i);
        let ghost pre = s@.subrange(from as int, i as int);
        let ghost next = s@.subrange(from as int, i + 1);
        proof {
            assert(next.drop_last() =~= pre);
        }
        if c < '0' || c > '9' {
            proof {
                assert(!all_digits(s@.skip(from as int))) by {
                    assert(s@.skip(from as int)[i - from] == c);
                }
            }
            return None;
        }
        let d = (c as u32 - '0' as u32) as u64;
        if acc > (u64::MAX - d) / 10 {
            proof {
                assert(decimal_value(next) > u64::MAX) by (nonlinear_arith)
                    requires
                        decimal_value(next) == acc * 10 + d,
                        acc > (u64::MAX - d) / 10,
                        d <= 9,
                ;
                let rest = s@.skip(from as int);
                if all_digits(rest) {
                    lemma_decimal_prefix_monotone(rest, (i + 1 - from) as int);
                    assert(rest.take((i + 1 - from) as int) =~= next);
                }
            }
            return None;
        }
        acc = acc * 10 + d;
        i = i + 1;
    }
    proof {
        assert(s@.subrange(from as int, n as int) =~= s@.skip(from as int));
    }
    Some(acc)
}

/// A longer run of digits never writes a smaller number.
proof fn lemma_decimal_prefix_monotone(s: Seq<char>, k: int)
    requires
        all_digits(s),
        0 <= k <= s.len(),
    ensures
        decimal_value(s.take(k)) <= decimal_value(s),
    decreases s.len() - k,
{
    if k < s.len() {
        lemma_decimal_prefix_monotone(s, k + 1);
        let t = s.take(k + 1);
        assert(t.drop_last() =~= s.take(k));
        assert(all_digits(t));
        lemma_decimal_bound(t);
        lemma_decimal_bound(s.take(k));
    } else {
        assert(s.take(k) =~= s);
    }
}

/// Reads an unsigned decimal number.
pub fn parse_u64(s: &String) -> (r: Option<u64>)
    ensures
        r == spec_parse_u64(s@),
{
    proof {
        assert(s@.skip(0) =~= s@);
    }
    parse_digits(s.as_str(), 0)
}

/// Reads a signed decimal number.
pub fn parse_i64(s: &String) -> (r: Option<i64>)
    ensures
        r == spec_parse_i64(s@),
{
    let t = s.as_str();
    let n = t.unicode_len();
    proof {
        if s@.len() > 0 && s@[0] == '-' {
            assert(!all_digits(s@)) by {
                assert(!('0' <= s@[0] <= '9'));
            }
        }
    }
    proof {
        if s@.len() > 1 && all_digits(s@.skip(1)) {
            lemma_decimal_bound(s@.skip(1));
        }
        if all_digits(s@) {
            lemma_decimal_bound(s@);
        }
    }
    if n > 1 && t.get_char(0) == '-' {
        match parse_digits(t, 1) {
            Some(v) => if v <= 0x8000_0000_0000_0000u64 {
                proof {
                    lemma_decimal_bound(s@.skip(1));
                    assert(v == decimal_value(s@.skip(1)));
                    assert(s@.len() > 1 && s@[0] == '-');
                    assert(all_digits(s@.skip(1)));
                }
                let r = (0i128 - v as i128) as i64;
                proof {
                    assert(r == (-decimal_value(s@.skip(1))) as i64);
                }
                Some(r)
            } else {
                None
            },
            None => None,
        }
    } else {
        proof {
            assert(s@.skip(0) =~= s@);
        }
        match parse_digits(t, 0) {
            Some(v) => if v <= i64::MAX as u64 {
                proof {
                    lemma_decimal_bound(s@);
                }
                Some(v as i64)
            } else {
                None
            },
            None => None,
        }
    }
}


pub open spec fn view_strs(s: Seq<&str>) -> Seq<Seq<char>> {
    s.map_values(|t: &str| t@)
}

/// Whether every flag after the command is one of `allowed`, with a flag right after it.
fn check_flags(args: &Vec<String>, allowed: &[&str]) -> (r: bool)
    ensures
        r == flags_known(view_args(args@), view_strs(allowed@)),
{
    let ghost a = view_args(args@);
    let ghost al = view_strs(allowed@);
    if args.len() > 2 && !token_is_flag(&args[2]) {
        proof {
            assert(a[2] == args@[2]@);
        }
        return false;
    }
    let mut i: usize = 2;
    while i < args.len()
        invariant
            2 <= i,
            a == view_args(args@),
            al == view_strs(allowed@),
            a.len() > 2 ==> is_flag(a[2]),
            forall|j: int|
                2 <= j < i && j < a.len() && is_flag(#[trigger] a[j]) ==> exists|k: int|
                    0 <= k < al.len() && names_flag(a[j], #[trigger] al[k]),
        decreases args@.len() - i,
    {
        proof {
            assert(a[i as int] == args@[i as int]@);
        }
        if token_is_flag(&args[i]) {
            let mut k: usize = 0;
            let mut found = false;
            while k < allowed.len() && !found
                invariant
                    a == view_args(args@),
                    al == view_strs(allowed@),
                    2 <= i < a.len(),
                    k <= allowed@.len(),
                    a[i as int] == args@[i as int]@,
                    found ==> exists|q: int| 0 <= q < al.len() && names_flag(a[i as int], #[trigger] al[q]),
                    !found ==> forall|q: int| 0 <= q < k ==> !names_flag(a[i as int], #[trigger] al[q]),
                decreases allowed@.len() - k, (if found { 0int } else { 1int }),
            {
                proof {
                    assert(al[k as int] == allowed@[k as int]@);
                }
                if token_names(&args[i], allowed[k]) != 0 {
                    found = true;
                } else {
                    k = k + 1;
                }
            }
            if !found {
                proof {
                    assert(k == allowed@.len());
                    if flags_known(a, al) {
                        assert(is_flag(a[i as int]));
                        assert(exists|q: int| 0 <= q < al.len() && names_flag(a[i as int], #[trigger] al[q]));
                        let q = choose|q: int| 0 <= q < al.len() && names_flag(a[i as int], #[trigger] al[q]);
                        assert(!names_flag(a[i as int], al[q]));
                    }
                }
                return false;
            }
        }
        i = i + 1;
    }
    true
}

/// A required flag that takes one value.
pub open spec fn spec_required(a: Seq<Seq<char>>, name: Seq<char>) -> Result<Seq<char>, CliError> {
    match spec_single(a, name) {
        Ok(Some(v)) => Ok(v),
        Ok(None) => Err(CliError::MissingArgument),
        Err(_) => Err(CliError::InvalidValue),
    }
}

pub open spec fn spec_optional(a: Seq<Seq<char>>, name: Seq<char>) -> Result<Option<Seq<char>>, CliError> {
    match spec_single(a, name) {
        Ok(v) => Ok(v),
        Err(_) => Err(CliError::InvalidValue),
    }
}

pub open spec fn spec_flag(a: Seq<Seq<char>>, name: Seq<char>) -> Result<bool, CliError> {
    match spec_switch(a, name) {
        Ok(b) => Ok(b),
        Err(_) => Err(CliError::InvalidValue),
    }
}

pub open spec fn spec_list(a: Seq<Seq<char>>, name: Seq<char>) -> Result<Option<Seq<Seq<char>>>, CliError> {
    match spec_multi(a, name) {
        Ok(v) => Ok(v),
        Err(_) => Err(CliError::InvalidValue),
    }
}

/// A number flag, `default` when absent.
pub open spec fn spec_count(a: Seq<Seq<char>>, name: Seq<char>, default: u64) -> Result<u64, CliError> {
    match spec_single(a, name) {
        Ok(None) => Ok(default),
        Ok(Some(v)) => match spec_parse_u64(v) {
            Some(n) => Ok(n),
            None => Err(CliError::InvalidValue),
        },
        Err(_) => Err(CliError::InvalidValue),
    }
}

pub open spec fn spec_timestamp(a: Seq<Seq<char>>, name: Seq<char>) -> Result<Option<i64>, CliError> {
    match spec_single(a, name) {
        Ok(None) => Ok(None),
        Ok(Some(v)) => match spec_parse_i64(v) {
            Some(n) => Ok(Some(n)),
            None => Err(CliError::InvalidValue),
        },
        Err(_) => Err(CliError::InvalidValue),
    }
}

fn required(args: &Vec<String>, name: &str) -> (r: Result<String, CliError>)
    ensures
        match spec_required(view_args(args@), name@) {
            Ok(v) => r matches Ok(s) && s@ == v,
            Err(e) => r == Err::<String, CliError>(e),
        },
{
    match single(args, name) {
        Ok(Some(s)) => Ok(s),
        Ok(None) => Err(CliError::MissingArgument),
        Err(e) => Err(e),
    }
}

fn optional(args: &Vec<String>, name: &str) -> (r: Result<Option<String>, CliError>)
    ensures
        match spec_optional(view_args(args@), name@) {
            Ok(None) => r == Ok::<Option<String>, CliError>(None),
            Ok(Some(v)) => r matches Ok(Some(s)) && s@ == v,
            Err(e) => r == Err::<Option<String>, CliError>(e),
        },
{
    single(args, name)
}

fn count(args: &Vec<String>, name: &str, default: u64) -> (r: Result<u64, CliError>)
    ensures
        r == spec_count(view_args(args@), name@, default),
{
    match single(args, name) {
        Ok(None) => Ok(default),
        Ok(Some(s)) => match parse_u64(&s) {
            Some(n) => Ok(n),
            None => Err(CliError::InvalidValue),
        },
        Err(e) => Err(e),
    }
}

fn timestamp(args: &Vec<String>, name: &str) -> (r: Result<Option<i64>, CliError>)
    ensures
        r == spec_timestamp(view_args(args@), name@),
{
    match single(args, name) {
        Ok(None) => Ok(None),
        Ok(Some(s)) => match parse_i64(&s) {
            Some(n) => Ok(Some(n)),
            None => Err(CliError::InvalidValue),
        },
        Err(e) => Err(e),
    }
}

/// The address of the cluster a command talks to.
#[derive(Clone, Debug, PartialEq, Eq)]
pub struct ClientArgs {
    pub cluster_endpoint: String,
}

pub open spec fn default_endpoint() -> Seq<char> {
    "http://127.0.0.1:7280"@
}

impl Default for ClientArgs {
    fn default() -> (r: Self)
        ensures
            r.cluster_endpoint@ == default_endpoint(),
    {
        ClientArgs { cluster_endpoint: String::from_str("http://127.0.0.1:7280") }
    }
}

pub open spec fn spec_endpoint(a: Seq<Seq<char>>) -> Result<Seq<char>, CliError> {
    match spec_optional(a, "endpoint"@) {
        Ok(Some(e)) => Ok(e),
        Ok(None) => Ok(default_endpoint()),
        Err(e) => Err(e),
    }
}

fn client_args(args: &Vec<String>) -> (r: Result<ClientArgs, CliError>)
    ensures
        match spec_endpoint(view_args(args@)) {
            Ok(e) => r matches Ok(c) && c.cluster_endpoint@ == e,
            Err(e) => r == Err::<ClientArgs, CliError>(e),
        },
{
    match optional(args, "endpoint") {
        Ok(Some(e)) => Ok(ClientArgs { cluster_endpoint: e }),
        Ok(None) => Ok(ClientArgs::default()),
        Err(e) => Err(e),
    }
}


pub open spec fn opt_view(o: Option<String>) -> Option<Seq<char>> {
    match o {
        Some(s) => Some(s@),
        None => None,
    }
}

pub open spec fn opt_list_view(o: Option<Vec<String>>) -> Option<Seq<Seq<char>>> {
    match o {
        Some(v) => Some(view_args(v@)),
        None => None,
    }
}

fn list(args: &Vec<String>, name: &str) -> (r: Result<Option<Vec<String>>, CliError>)
    ensures
        match spec_list(view_args(args@), name@) {
            Ok(v) => r matches Ok(o) && opt_list_view(o) == v,
            Err(e) => r == Err::<Option<Vec<String>>, CliError>(e),
        },
{
    multi(args, name)
}

fn flag(args: &Vec<String>, name: &str) -> (r: Result<bool, CliError>)
    ensures
        r == spec_flag(view_args(args@), name@),
{
    switch(args, name)
}

fn known(args: &Vec<String>, allowed: Vec<&str>, names: Ghost<Seq<Seq<char>>>) -> (r: Result<(), CliError>)
    requires
        view_strs(allowed@) == names@,
    ensures
        r.is_ok() == flags_known(view_args(args@), names@),
        r.is_err() ==> r == Err::<(), CliError>(CliError::UnexpectedArgument),
{
    if check_flags(args, allowed.as_slice()) {
        Ok(())
    } else {
        Err(CliError::UnexpectedArgument)
    }
}

#[derive(Clone, Debug, PartialEq, Eq)]
pub struct ClearIndexArgs {
    pub client_args: ClientArgs,
    pub index_id: String,
    pub assume_yes: bool,
}

#[derive(Clone, Debug, PartialEq, Eq)]
pub struct DeleteIndexArgs {
    pub client_args: ClientArgs,
    pub index_id: String,
    pub dry_run: bool,
    pub assume_yes: bool,
}

#[derive(Clone, Debug, PartialEq, Eq)]
pub struct DescribeIndexArgs {
    pub client_args: ClientArgs,
    pub index_id: String,
}

#[derive(Clone, Debug, PartialEq, Eq)]
pub struct SearchIndexArgs {
    pub client_args: ClientArgs,
    pub index_id: String,
    pub query: String,
    pub aggregation: Option<String>,
    pub max_hits: u64,
    pub start_offset: u64,
    pub search_fields: Option<Vec<String>>,
    pub snippet_fields: Option<Vec<String>>,
    pub start_timestamp: Option<i64>,
    pub end_timestamp: Option<i64>,
    pub sort_by_score: bool,
}

#[derive(Clone, Debug, PartialEq, Eq)]
pub struct DescribeSplitArgs {
    pub client_args: ClientArgs,
    pub index_id: String,
    pub split_id: String,
    pub verbose: bool,
}

#[derive(Clone, Debug, PartialEq, Eq)]
pub struct LocalSearchArgs {
    pub config_uri: Option<String>,
    pub index_id: String,
    pub query: String,
    pub aggregation: Option<String>,
    pub max_hits: u64,
    pub start_offset: u64,
    pub search_fields: Option<Vec<String>>,
    pub snippet_fields: Option<Vec<String>>,
    pub start_timestamp: Option<i64>,
    pub end_timestamp: Option<i64>,
    pub sort_by_field: Option<String>,
}

#[derive(Clone, Debug, PartialEq, Eq)]
pub struct ExtractSplitArgs {
    pub config_uri: Option<String>,
    pub index_id: String,
    pub split_id: String,
    pub target_dir: String,
}

#[derive(Clone, Debug, PartialEq, Eq)]
pub struct MergeArgs {
    pub config_uri: Option<String>,
    pub index_id: String,
    pub source_id: String,
}

#[derive(Clone, Debug, PartialEq, Eq)]
pub enum IndexCliCommand {
    Clear(ClearIndexArgs),
    Delete(DeleteIndexArgs),
    Describe(DescribeIndexArgs),
    Search(SearchIndexArgs),
}

#[derive(Clone, Debug, PartialEq, Eq)]
pub enum SplitCliCommand {
    Describe(DescribeSplitArgs),
}

#[derive(Clone, Debug, PartialEq, Eq)]
pub enum ToolCliCommand {
    LocalSearch(LocalSearchArgs),
    ExtractSplit(ExtractSplitArgs),
    Merge(MergeArgs),
}

#[derive(Clone, Debug, PartialEq, Eq)]
pub enum CliCommand {
    Index(IndexCliCommand),
    Split(SplitCliCommand),
    Tool(ToolCliCommand),
}

pub open spec fn clear_flags() -> Seq<Seq<char>> {
    seq!["index"@, "yes"@, "endpoint"@]
}

pub open spec fn clear_ok(a: Seq<Seq<char>>) -> bool {
    flags_known(a, clear_flags()) && spec_endpoint(a) is Ok && spec_required(a, "index"@) is Ok && spec_flag(a, "yes"@) is Ok
}

fn parse_clear(args: &Vec<String>) -> (r: Result<ClearIndexArgs, CliError>)
    ensures
        r.is_ok() == clear_ok(view_args(args@)),
        !flags_known(view_args(args@), clear_flags()) ==> r == Err::<ClearIndexArgs, CliError>(CliError::UnexpectedArgument),
        r matches Ok(x) ==> x.client_args.cluster_endpoint@ == spec_endpoint(view_args(args@))->Ok_0
            && x.index_id@ == spec_required(view_args(args@), "index"@)->Ok_0
            && x.assume_yes == spec_flag(view_args(args@), "yes"@)->Ok_0,
{
    let allowed = vec!["index", "yes", "endpoint"];
    proof {
        assert(view_strs(allowed@) =~= clear_flags());
    }
    match known(args, allowed, Ghost(clear_flags())) {
        Err(e) => return Err(e),
        Ok(()) => {},
    }
    let client_args = match client_args(args) {
        Ok(c) => c,
        Err(e) => return Err(e),
    };
    let index_id = match required(args, "index") {
        Ok(v) => v,
        Err(e) => return Err(e),
    };
    let assume_yes = match flag(args, "yes") {
        Ok(v) => v,
        Err(e) => return Err(e),
    };
    Ok(ClearIndexArgs { client_args, index_id, assume_yes })
}

pub open spec fn delete_flags() -> Seq<Seq<char>> {
    seq!["index"@, "dry-run"@, "yes"@, "endpoint"@]
}

pub open spec fn delete_ok(a: Seq<Seq<char>>) -> bool {
    flags_known(a, delete_flags()) && spec_endpoint(a) is Ok && spec_required(a, "index"@) is Ok && spec_flag(a, "dry-run"@) is Ok
        && spec_flag(a, "yes"@) is Ok
}

fn parse_delete(args: &Vec<String>) -> (r: Result<DeleteIndexArgs, CliError>)
    ensures
        r.is_ok() == delete_ok(view_args(args@)),
        !flags_known(view_args(args@), delete_flags()) ==> r == Err::<DeleteIndexArgs, CliError>(CliError::UnexpectedArgument),
        r matches Ok(x) ==> x.client_args.cluster_endpoint@ == spec_endpoint(view_args(args@))->Ok_0
            && x.index_id@ == spec_required(view_args(args@), "index"@)->Ok_0
            && x.dry_run == spec_flag(view_args(args@), "dry-run"@)->Ok_0
            && x.assume_yes == spec_flag(view_args(args@), "yes"@)->Ok_0,
{
    let allowed = vec!["index", "dry-run", "yes", "endpoint"];
    proof {
        assert(view_strs(allowed@) =~= delete_flags());
    }
    match known(args, allowed, Ghost(delete_flags())) {
        Err(e) => return Err(e),
        Ok(()) => {},
    }
    let client_args = match client_args(args) {
        Ok(c) => c,
        Err(e) => return Err(e),
    };
    let index_id = match required(args, "index") {
        Ok(v) => v,
        Err(e) => return Err(e),
    };
    let dry_run = match flag(args, "dry-run") {
        Ok(v) => v,
        Err(e) => return Err(e),
    };
    let assume_yes = match flag(args, "yes") {
        Ok(v) => v,
        Err(e) => return Err(e),
    };
    Ok(DeleteIndexArgs { client_args, index_id, dry_run, assume_yes })
}

pub open spec fn describe_flags() -> Seq<Seq<char>> {
    seq!["index"@, "endpoint"@]
}

pub open spec fn describe_ok(a: Seq<Seq<char>>) -> bool {
    flags_known(a, describe_flags()) && spec_endpoint(a) is Ok && spec_required(a, "index"@) is Ok
}

fn parse_describe(args: &Vec<String>) -> (r: Result<DescribeIndexArgs, CliError>)
    ensures
        r.is_ok() == describe_ok(view_args(args@)),
        !flags_known(view_args(args@), describe_flags()) ==> r == Err::<DescribeIndexArgs, CliError>(CliError::UnexpectedArgument),
        r matches Ok(x) ==> x.client_args.cluster_endpoint@ == spec_endpoint(view_args(args@))->Ok_0
            && x.index_id@ == spec_required(view_args(args@), "index"@)->Ok_0,
{
    let allowed = vec!["index", "endpoint"];
    proof {
        assert(view_strs(allowed@) =~= describe_flags());
    }
    match known(args, allowed, Ghost(describe_flags())) {
        Err(e) => return Err(e),
        Ok(()) => {},
    }
    let client_args = match client_args(args) {
        Ok(c) => c,
        Err(e) => return Err(e),
    };
    let index_id = match required(args, "index") {
        Ok(v) => v,
        Err(e) => return Err(e),
    };
    Ok(DescribeIndexArgs { client_args, index_id })
}

/// The flags a search reads, whether run on a cluster or locally.
pub open spec fn search_query_ok(a: Seq<Seq<char>>) -> bool {
    &&& spec_required(a, "index"@) is Ok
    &&& spec_required(a, "query"@) is Ok
    &&& spec_optional(a, "aggregation"@) is Ok
    &&& spec_count(a, "max-hits"@, 20) is Ok
    &&& spec_count(a, "start-offset"@, 0) is Ok
    &&& spec_list(a, "search-fields"@) is Ok
    &&& spec_list(a, "snippet-fields"@) is Ok
    &&& spec_timestamp(a, "start-timestamp"@) is Ok
    &&& spec_timestamp(a, "end-timestamp"@) is Ok
}

/// The search flags read into their fields.
pub struct SearchQuery {
    pub index_id: String,
    pub query: String,
    pub aggregation: Option<String>,
    pub max_hits: u64,
    pub start_offset: u64,
    pub search_fields: Option<Vec<String>>,
    pub snippet_fields: Option<Vec<String>>,
    pub start_timestamp: Option<i64>,
    pub end_timestamp: Option<i64>,
}

pub open spec fn search_query_read(a: Seq<Seq<char>>, q: SearchQuery) -> bool {
    &&& q.index_id@ == spec_required(a, "index"@)->Ok_0
    &&& q.query@ == spec_required(a, "query"@)->Ok_0
    &&& opt_view(q.aggregation) == spec_optional(a, "aggregation"@)->Ok_0
    &&& q.max_hits == spec_count(a, "max-hits"@, 20)->Ok_0
    &&& q.start_offset == spec_count(a, "start-offset"@, 0)->Ok_0
    &&& opt_list_view(q.search_fields) == spec_list(a, "search-fields"@)->Ok_0
    &&& opt_list_view(q.snippet_fields) == spec_list(a, "snippet-fields"@)->Ok_0
    &&& q.start_timestamp == spec_timestamp(a, "start-timestamp"@)->Ok_0
    &&& q.end_timestamp == spec_timestamp(a, "end-timestamp"@)->Ok_0
}

fn parse_search_query(args: &Vec<String>) -> (r: Result<SearchQuery, CliError>)
    ensures
        r.is_ok() == search_query_ok(view_args(args@)),
        r matches Ok(q) ==> search_query_read(view_args(args@), q),
{
    let index_id = match required(args, "index") {
        Ok(v) => v,
        Err(e) => return Err(e),
    };
    let query = match required(args, "query") {
        Ok(v) => v,
        Err(e) => return Err(e),
    };
    let aggregation = match optional(args, "aggregation") {
        Ok(v) => v,
        Err(e) => return Err(e),
    };
    let max_hits = match count(args, "max-hits", 20) {
        Ok(v) => v,
        Err(e) => return Err(e),
    };
    let start_offset = match count(args, "start-offset", 0) {
        Ok(v) => v,
        Err(e) => return Err(e),
    };
    let search_fields = match list(args, "search-fields") {
        Ok(v) => v,
        Err(e) => return Err(e),
    };
    let snippet_fields = match list(args, "snippet-fields") {
        Ok(v) => v,
        Err(e) => return Err(e),
    };
    let start_timestamp = match timestamp(args, "start-timestamp") {
        Ok(v) => v,
        Err(e) => return Err(e),
    };
    let end_timestamp = match timestamp(args, "end-timestamp") {
        Ok(v) => v,
        Err(e) => return Err(e),
    };
    Ok(
        SearchQuery {
            index_id,
            query,
            aggregation,
            max_hits,
            start_offset,
            search_fields,
            snippet_fields,
            start_timestamp,
            end_timestamp,
        },
    )
}

pub open spec fn search_flags() -> Seq<Seq<char>> {
    seq![
        "index"@,
        "query"@,
        "aggregation"@,
        "max-hits"@,
        "start-offset"@,
        "search-fields"@,
        "snippet-fields"@,
        "start-timestamp"@,
        "end-timestamp"@,
        "sort-by-score"@,
        "endpoint"@,
    ]
}

pub open spec fn search_ok(a: Seq<Seq<char>>) -> bool {
    flags_known(a, search_flags()) && spec_endpoint(a) is Ok && search_query_ok(a) && spec_flag(a, "sort-by-score"@) is Ok
}

fn parse_search(args: &Vec<String>) -> (r: Result<SearchIndexArgs, CliError>)
    ensures
        r.is_ok() == search_ok(view_args(args@)),
        !flags_known(view_args(args@), search_flags()) ==> r == Err::<SearchIndexArgs, CliError>(CliError::UnexpectedArgument),
        r matches Ok(x) ==> x.client_args.cluster_endpoint@ == spec_endpoint(view_args(args@))->Ok_0
            && search_query_read(
            view_args(args@),
            SearchQuery {
                index_id: x.index_id,
                query: x.query,
                aggregation: x.aggregation,
                max_hits: x.max_hits,
                start_offset: x.start_offset,
                search_fields: x.search_fields,
                snippet_fields: x.snippet_fields,
                start_timestamp: x.start_timestamp,
                end_timestamp: x.end_timestamp,
            },
        ) && x.sort_by_score == spec_flag(view_args(args@), "sort-by-score"@)->Ok_0,
{
    let allowed = vec![
        "index",
        "query",
        "aggregation",
        "max-hits",
        "start-offset",
        "search-fields",
        "snippet-fields",
        "start-timestamp",
        "end-timestamp",
        "sort-by-score",
        "endpoint",
    ];
    proof {
        assert(view_strs(allowed@) =~= search_flags());
    }
    match known(args, allowed, Ghost(search_flags())) {
        Err(e) => return Err(e),
        Ok(()) => {},
    }
    let client_args = match client_args(args) {
        Ok(c) => c,
        Err(e) => return Err(e),
    };
    let q = match parse_search_query(args) {
        Ok(q) => q,
        Err(e) => return Err(e),
    };
    let sort_by_score = match flag(args, "sort-by-score") {
        Ok(v) => v,
        Err(e) => return Err(e),
    };
    Ok(
        SearchIndexArgs {
            client_args,
            index_id: q.index_id,
            query: q.query,
            aggregation: q.aggregation,
            max_hits: q.max_hits,
            start_offset: q.start_offset,
            search_fields: q.search_fields,
            snippet_fields: q.snippet_fields,
            start_timestamp: q.start_timestamp,
            end_timestamp: q.end_timestamp,
            sort_by_score,
        },
    )
}

pub open spec fn split_describe_flags() -> Seq<Seq<char>> {
    seq!["index"@, "split"@, "verbose"@, "endpoint"@]
}

pub open spec fn split_describe_ok(a: Seq<Seq<char>>) -> bool {
    flags_known(a, split_describe_flags()) && spec_endpoint(a) is Ok && spec_required(a, "index"@) is Ok
        && spec_required(a, "split"@) is Ok && spec_flag(a, "verbose"@) is Ok
}

fn parse_split_describe(args: &Vec<String>) -> (r: Result<DescribeSplitArgs, CliError>)
    ensures
        r.is_ok() == split_describe_ok(view_args(args@)),
        !flags_known(view_args(args@), split_describe_flags()) ==> r == Err::<DescribeSplitArgs, CliError>(CliError::UnexpectedArgument),
        r matches Ok(x) ==> x.client_args.cluster_endpoint@ == spec_endpoint(view_args(args@))->Ok_0
            && x.index_id@ == spec_required(view_args(args@), "index"@)->Ok_0
            && x.split_id@ == spec_required(view_args(args@), "split"@)->Ok_0
            && x.verbose == spec_flag(view_args(args@), "verbose"@)->Ok_0,
{
    let allowed = vec!["index", "split", "verbose", "endpoint"];
    proof {
        assert(view_strs(allowed@) =~= split_describe_flags());
    }
    match known(args, allowed, Ghost(split_describe_flags())) {
        Err(e) => return Err(e),
        Ok(()) => {},
    }
    let client_args = match client_args(args) {
        Ok(c) => c,
        Err(e) => return Err(e),
    };
    let index_id = match required(args, "index") {
        Ok(v) => v,
        Err(e) => return Err(e),
    };
    let split_id = match required(args, "split") {
        Ok(v) => v,
        Err(e) => return Err(e),
    };
    let verbose = match flag(args, "verbose") {
        Ok(v) => v,
        Err(e) => return Err(e),
    };
    Ok(DescribeSplitArgs { client_args, index_id, split_id, verbose })
}

pub open spec fn local_search_flags() -> Seq<Seq<char>> {
    seq![
        "config"@,
        "index"@,
        "query"@,
        "aggregation"@,
        "max-hits"@,
        "start-offset"@,
        "search-fields"@,
        "snippet-fields"@,
        "start-timestamp"@,
        "end-timestamp"@,
        "sort-by-field"@,
    ]
}

pub open spec fn local_search_ok(a: Seq<Seq<char>>) -> bool {
    flags_known(a, local_search_flags()) && spec_optional(a, "config"@) is Ok && search_query_ok(a) && spec_optional(
        a,
        "sort-by-field"@,
    ) is Ok
}

fn parse_local_search(args: &Vec<String>) -> (r: Result<LocalSearchArgs, CliError>)
    ensures
        r.is_ok() == local_search_ok(view_args(args@)),
        !flags_known(view_args(args@), local_search_flags()) ==> r == Err::<LocalSearchArgs, CliError>(CliError::UnexpectedArgument),
        r matches Ok(x) ==> opt_view(x.config_uri) == spec_optional(view_args(args@), "config"@)->Ok_0
            && search_query_read(
            view_args(args@),
            SearchQuery {
                index_id: x.index_id,
                query: x.query,
                aggregation: x.aggregation,
                max_hits: x.max_hits,
                start_offset: x.start_offset,
                search_fields: x.search_fields,
                snippet_fields: x.snippet_fields,
                start_timestamp: x.start_timestamp,
                end_timestamp: x.end_timestamp,
            },
        ) && opt_view(x.sort_by_field) == spec_optional(view_args(args@), "sort-by-field"@)->Ok_0,
{
    let allowed = vec![
        "config",
        "index",
        "query",
        "aggregation",
        "max-hits",
        "start-offset",
        "search-fields",
        "snippet-fields",
        "start-timestamp",
        "end-timestamp",
        "sort-by-field",
    ];
    proof {
        assert(view_strs(allowed@) =~= local_search_flags());
    }
    match known(args, allowed, Ghost(local_search_flags())) {
        Err(e) => return Err(e),
        Ok(()) => {},
    }
    let config_uri = match optional(args, "config") {
        Ok(v) => v,
        Err(e) => return Err(e),
    };
    let q = match parse_search_query(args) {
        Ok(q) => q,
        Err(e) => return Err(e),
    };
    let sort_by_field = match optional(args, "sort-by-field") {
        Ok(v) => v,
        Err(e) => return Err(e),
    };
    Ok(
        LocalSearchArgs {
            config_uri,
            index_id: q.index_id,
            query: q.query,
            aggregation: q.aggregation,
            max_hits: q.max_hits,
            start_offset: q.start_offset,
            search_fields: q.search_fields,
            snippet_fields: q.snippet_fields,
            start_timestamp: q.start_timestamp,
            end_timestamp: q.end_timestamp,
            sort_by_field,
        },
    )
}

pub open spec fn extract_split_flags() -> Seq<Seq<char>> {
    seq!["config"@, "index"@, "split"@, "target-dir"@]
}

pub open spec fn extract_split_ok(a: Seq<Seq<char>>) -> bool {
    flags_known(a, extract_split_flags()) && spec_optional(a, "config"@) is Ok && spec_required(a, "index"@) is Ok
        && spec_required(a, "split"@) is Ok && spec_required(a, "target-dir"@) is Ok
}

fn parse_extract_split(args: &Vec<String>) -> (r: Result<ExtractSplitArgs, CliError>)
    ensures
        r.is_ok() == extract_split_ok(view_args(args@)),
        !flags_known(view_args(args@), extract_split_flags()) ==> r == Err::<ExtractSplitArgs, CliError>(CliError::UnexpectedArgument),
        r matches Ok(x) ==> opt_view(x.config_uri) == spec_optional(view_args(args@), "config"@)->Ok_0
            && x.index_id@ == spec_required(view_args(args@), "index"@)->Ok_0
            && x.split_id@ == spec_required(view_args(args@), "split"@)->Ok_0
            && x.target_dir@ == spec_required(view_args(args@), "target-dir"@)->Ok_0,
{
    let allowed = vec!["config", "index", "split", "target-dir"];
    proof {
        assert(view_strs(allowed@) =~= extract_split_flags());
    }
    match known(args, allowed, Ghost(extract_split_flags())) {
        Err(e) => return Err(e),
        Ok(()) => {},
    }
    let config_uri = match optional(args, "config") {
        Ok(v) => v,
        Err(e) => return Err(e),
    };
    let index_id = match required(args, "index") {
        Ok(v) => v,
        Err(e) => return Err(e),
    };
    let split_id = match required(args, "split") {
        Ok(v) => v,
        Err(e) => return Err(e),
    };
    let target_dir = match required(args, "target-dir") {
        Ok(v) => v,
        Err(e) => return Err(e),
    };
    Ok(ExtractSplitArgs { config_uri, index_id, split_id, target_dir })
}

pub open spec fn merge_flags() -> Seq<Seq<char>> {
    seq!["config"@, "index"@, "source"@]
}

pub open spec fn merge_ok(a: Seq<Seq<char>>) -> bool {
    flags_known(a, merge_flags()) && spec_optional(a, "config"@) is Ok && spec_required(a, "index"@) is Ok
        && spec_required(a, "source"@) is Ok
}

fn parse_merge(args: &Vec<String>) -> (r: Result<MergeArgs, CliError>)
    ensures
        r.is_ok() == merge_ok(view_args(args@)),
        !flags_known(view_args(args@), merge_flags()) ==> r == Err::<MergeArgs, CliError>(CliError::UnexpectedArgument),
        r matches Ok(x) ==> opt_view(x.config_uri) == spec_optional(view_args(args@), "config"@)->Ok_0
            && x.index_id@ == spec_required(view_args(args@), "index"@)->Ok_0
            && x.source_id@ == spec_required(view_args(args@), "source"@)->Ok_0,
{
    let allowed = vec!["config", "index", "source"];
    proof {
        assert(view_strs(allowed@) =~= merge_flags());
    }
    match known(args, allowed, Ghost(merge_flags())) {
        Err(e) => return Err(e),
        Ok(()) => {},
    }
    let config_uri = match optional(args, "config") {
        Ok(v) => v,
        Err(e) => return Err(e),
    };
    let index_id = match required(args, "index") {
        Ok(v) => v,
        Err(e) => return Err(e),
    };
    let source_id = match required(args, "source") {
        Ok(v) => v,
        Err(e) => return Err(e),
    };
    Ok(MergeArgs { config_uri, index_id, source_id })
}

/// The command that the first two arguments name.
pub open spec fn command_named(a: Seq<Seq<char>>, group: Seq<char>, command: Seq<char>) -> bool {
    a.len() >= 2 && a[0] == group && a[1] == command
}

fn is_word(s: &String, word: &str) -> (r: bool)
    ensures
        r == (s@ == word@),
{
    *s == String::from_str(word)
}

impl CliCommand {
    /// Reads a command line, the program name left out.
    pub fn parse_cli_args(args: &Vec<String>) -> (r: Result<CliCommand, CliError>)
        ensures
            command_named(view_args(args@), "index"@, "clear"@) ==> r.is_ok() == clear_ok(view_args(args@)),
            command_named(view_args(args@), "index"@, "clear"@) && r.is_ok() ==> (r matches Ok(CliCommand::Index(IndexCliCommand::Clear(_)))),
            command_named(view_args(args@), "index"@, "delete"@) ==> r.is_ok() == delete_ok(view_args(args@)),
            command_named(view_args(args@), "index"@, "delete"@) && r.is_ok() ==> (r matches Ok(CliCommand::Index(IndexCliCommand::Delete(_)))),
            command_named(view_args(args@), "index"@, "describe"@) ==> r.is_ok() == describe_ok(view_args(args@)),
            command_named(view_args(args@), "index"@, "describe"@) && r.is_ok() ==> (r matches Ok(CliCommand::Index(IndexCliCommand::Describe(_)))),
            command_named(view_args(args@), "index"@, "search"@) ==> r.is_ok() == search_ok(view_args(args@)),
            command_named(view_args(args@), "index"@, "search"@) && r.is_ok() ==> (r matches Ok(CliCommand::Index(IndexCliCommand::Search(_)))),
            command_named(view_args(args@), "split"@, "describe"@) ==> r.is_ok() == split_describe_ok(view_args(args@)),
            command_named(view_args(args@), "split"@, "describe"@) && r.is_ok() ==> (r matches Ok(CliCommand::Split(SplitCliCommand::Describe(_)))),
            command_named(view_args(args@), "tool"@, "local-search"@) ==> r.is_ok() == local_search_ok(view_args(args@)),
            command_named(view_args(args@), "tool"@, "local-search"@) && r.is_ok() ==> (r matches Ok(CliCommand::Tool(ToolCliCommand::LocalSearch(_)))),
            command_named(view_args(args@), "tool"@, "extract-split"@) ==> r.is_ok() == extract_split_ok(view_args(args@)),
            command_named(view_args(args@), "tool"@, "extract-split"@) && r.is_ok() ==> (r matches Ok(CliCommand::Tool(ToolCliCommand::ExtractSplit(_)))),
            command_named(view_args(args@), "tool"@, "merge"@) ==> r.is_ok() == merge_ok(view_args(args@)),
            command_named(view_args(args@), "tool"@, "merge"@) && r.is_ok() ==> (r matches Ok(CliCommand::Tool(ToolCliCommand::Merge(_)))),
            r matches Ok(CliCommand::Index(IndexCliCommand::Clear(x))) ==> command_named(view_args(args@), "index"@, "clear"@)
                && x.index_id@ == spec_required(view_args(args@), "index"@)->Ok_0
                && x.assume_yes == spec_flag(view_args(args@), "yes"@)->Ok_0
                && x.client_args.cluster_endpoint@ == spec_endpoint(view_args(args@))->Ok_0,
            r matches Ok(CliCommand::Index(IndexCliCommand::Delete(x))) ==> command_named(view_args(args@), "index"@, "delete"@)
                && x.index_id@ == spec_required(view_args(args@), "index"@)->Ok_0
                && x.dry_run == spec_flag(view_args(args@), "dry-run"@)->Ok_0,
            r matches Ok(CliCommand::Index(IndexCliCommand::Search(x))) ==> command_named(view_args(args@), "index"@, "search"@)
                && x.index_id@ == spec_required(view_args(args@), "index"@)->Ok_0
                && x.query@ == spec_required(view_args(args@), "query"@)->Ok_0
                && x.max_hits == spec_count(view_args(args@), "max-hits"@, 20)->Ok_0,
            r matches Ok(CliCommand::Split(SplitCliCommand::Describe(x))) ==> command_named(view_args(args@), "split"@, "describe"@)
                && x.split_id@ == spec_required(view_args(args@), "split"@)->Ok_0,
            r matches Ok(CliCommand::Tool(ToolCliCommand::Merge(x))) ==> command_named(view_args(args@), "tool"@, "merge"@)
                && x.source_id@ == spec_required(view_args(args@), "source"@)->Ok_0,
            !(command_named(view_args(args@), "index"@, "clear"@) || command_named(view_args(args@), "index"@, "delete"@)
                || command_named(view_args(args@), "index"@, "describe"@) || command_named(view_args(args@), "index"@, "search"@)
                || command_named(view_args(args@), "split"@, "describe"@) || command_named(view_args(args@), "tool"@, "local-search"@)
                || command_named(view_args(args@), "tool"@, "extract-split"@) || command_named(view_args(args@), "tool"@, "merge"@))
                ==> r == Err::<CliCommand, CliError>(CliError::UnknownCommand),
    {
        let ghost a = view_args(args@);
        if args.len() < 2 {
            return Err(CliError::UnknownCommand);
        }
        proof {
            assert(a[0] == args@[0]@);
            assert(a[1] == args@[1]@);
            reveal_strlit("index");
            reveal_strlit("split");
            reveal_strlit("tool");
            reveal_strlit("clear");
            reveal_strlit("delete");
            reveal_strlit("describe");
            reveal_strlit("search");
            reveal_strlit("local-search");
            reveal_strlit("extract-split");
            reveal_strlit("merge");
            assert("search"@[0] != "delete"@[0]);
            assert("search"@ != "delete"@);
            assert("search"@[0] != "clear"@[0]);
            assert("search"@ != "clear"@);
            assert("search"@[0] != "describe"@[0]);
            assert("search"@ != "describe"@);
            assert("delete"@[0] != "clear"@[0]);
            assert("delete"@ != "clear"@);
            assert("describe"@[0] != "clear"@[0]);
            assert("describe"@ != "clear"@);
            assert("describe"@[2] != "delete"@[2]);
            assert("describe"@ != "delete"@);
            assert("split"@[0] != "index"@[0]);
            assert("split"@ != "index"@);
            assert("tool"@[0] != "index"@[0]);
            assert("tool"@ != "index"@);
            assert("tool"@[0] != "split"@[0]);
            assert("tool"@ != "split"@);
            assert("merge"@[0] != "local-search"@[0]);
            assert("merge"@ != "local-search"@);
            assert("merge"@[0] != "extract-split"@[0]);
            assert("merge"@ != "extract-split"@);
            assert("extract-split"@[0] != "local-search"@[0]);
            assert("extract-split"@ != "local-search"@);
        }
        let group = &args[0];
        let command = &args[1];
        if is_word(group, "index") {
            if is_word(command, "clear") {
                match parse_clear(args) {
                    Ok(x) => Ok(CliCommand::Index(IndexCliCommand::Clear(x))),
                    Err(e) => Err(e),
                }
            } else if is_word(command, "delete") {
                match parse_delete(args) {
                    Ok(x) => Ok(CliCommand::Index(IndexCliCommand::Delete(x))),
                    Err(e) => Err(e),
                }
            } else if is_word(command, "describe") {
                match parse_describe(args) {
                    Ok(x) => Ok(CliCommand::Index(IndexCliCommand::Describe(x))),
                    Err(e) => Err(e),
                }
            } else if is_word(command, "search") {
                match parse_search(args) {
                    Ok(x) => Ok(CliCommand::Index(IndexCliCommand::Search(x))),
                    Err(e) => Err(e),
                }
            } else {
                Err(CliError::UnknownCommand)
            }
        } else if is_word(group, "split") {
            if is_word(command, "describe") {
                match parse_split_describe(args) {
                    Ok(x) => Ok(CliCommand::Split(SplitCliCommand::Describe(x))),
                    Err(e) => Err(e),
                }
            } else {
                Err(CliError::UnknownCommand)
            }
        } else if is_word(group, "tool") {
            if is_word(command, "local-search") {
                match parse_local_search(args) {
                    Ok(x) => Ok(CliCommand::Tool(ToolCliCommand::LocalSearch(x))),
                    Err(e) => Err(e),
                }
            } else if is_word(command, "extract-split") {
                match parse_extract_split(args) {
                    Ok(x) => Ok(CliCommand::Tool(ToolCliCommand::ExtractSplit(x))),
                    Err(e) => Err(e),
                }
            } else if is_word(command, "merge") {
                match parse_merge(args) {
                    Ok(x) => Ok(CliCommand::Tool(ToolCliCommand::Merge(x))),
                    Err(e) => Err(e),
                }
            } else {
                Err(CliError::UnknownCommand)
            }
        } else {
            Err(CliError::UnknownCommand)
        }
    }
}

} // verus!
