//! The scanner's value types: the verbosity selector, a resolved network
//! address held as plain values, and a validated port range read from the
//! command line's `a` or `a-b` notation.

use vstd::prelude::*;
use crate::constants::MAX_PORT;
use crate::decimal::{parse_u32, spec_parse_u32, NumError};

verus! {

/// Verbosity selector for the scanner's output.
#[allow(non_camel_case_types)]
#[derive(Clone, Copy, Debug, PartialEq, Eq, Structural)]
pub enum LogLevel {
    INFO,
    DEBUG,
}

impl LogLevel {
    /// The progress bar is drawn for every level but `DEBUG`, whose output
    /// is plain log lines.
    pub fn shows_progress(&self) -> (r: bool)
        ensures
            r == (*self != LogLevel::DEBUG),
    {
        match self {
            LogLevel::DEBUG => false,
            LogLevel::INFO => true,
        }
    }
}

/// A resolved network address, held as plain values: the four octets of a
/// version-4 address, or the 128-bit value of a version-6 one.
#[derive(Clone, Copy, Debug, PartialEq, Eq, Structural)]
pub enum Address {
    V4(u8, u8, u8, u8),
    V6(u128),
}

impl Address {
    pub fn is_v4(&self) -> (r: bool)
        ensures
            r == (*self is V4),
    {
        match self {
            Address::V4(_, _, _, _) => true,
            Address::V6(_) => false,
        }
    }
}

/// The first version-4 address of `s`, if any.
pub open spec fn spec_first_v4(s: Seq<Address>) -> Option<Address>
    decreases s.len(),
{
    if s.len() == 0 {
        None
    } else if s.first() is V4 {
        Some(s.first())
    } else {
        spec_first_v4(s.drop_first())
    }
}

pub proof fn lemma_spec_first_v4(s: Seq<Address>)
    ensures
        (spec_first_v4(s) is Some) <==> (exists|i: int|
            0 <= i < s.len() && (#[trigger] s[i]) is V4),
        spec_first_v4(s) is Some ==> spec_first_v4(s)->0 is V4 && s.contains(
            spec_first_v4(s)->0,
        ),
    decreases s.len(),
{
    if s.len() == 0 {
    } else if s.first() is V4 {
        assert(s[0] is V4);
    } else {
        let df = s.drop_first();
        lemma_spec_first_v4(df);
        if spec_first_v4(s) is Some {
            let a = spec_first_v4(df)->0;
            let i = choose|i: int| 0 <= i < df.len() && df[i] == a;
            assert(s[i + 1] == a);
        }
        if exists|i: int| 0 <= i < s.len() && (#[trigger] s[i]) is V4 {
            let i = choose|i: int| 0 <= i < s.len() && (#[trigger] s[i]) is V4;
            assert(i >= 1);
            assert(df[i - 1] is V4);
        }
    }
}

/// Picks the first version-4 address among the candidates a name
/// resolution returned, as the scanner targets version-4 addresses.
pub fn first_v4(candidates: &Vec<Address>) -> (r: Option<Address>)
    ensures
        r == spec_first_v4(candidates@),
        (r is Some) <==> (exists|i: int|
            0 <= i < candidates@.len() && (#[trigger] candidates@[i]) is V4),
        r is Some ==> r->0 is V4 && candidates@.contains(r->0),
{
    proof {
        lemma_spec_first_v4(candidates@);
    }
    let n = candidates.len();
    let mut i: usize = 0;
    proof {
        assert(candidates@.skip(0) =~= candidates@);
    }
    while i < n
        invariant
            0 <= i <= n,
            n == candidates@.len(),
            spec_first_v4(candidates@) == spec_first_v4(candidates@.skip(i as int)),
        decreases n - i,
    {
        let c = candidates[i];
        proof {
            let rest = candidates@.skip(i as int);
            assert(rest.first() == candidates@[i as int]);
            assert(rest.drop_first() =~= candidates@.skip(i as int + 1));
        }
        if c.is_v4() {
            return Some(c);
        }
        i = i + 1;
    }
    proof {
        assert(candidates@.skip(n as int).len() == 0);
    }
    None
}

/// All ports a command-line port range stands for: a single port `a`, or
/// every port of `a-b` inclusive.
#[derive(Clone, Debug, PartialEq)]
pub struct PortRange(pub Vec<u32>);

/// The ports `start..=end`, ascending.
pub open spec fn range_seq(start: u32, end: u32) -> Seq<u32>
    recommends
        start <= end,
{
    Seq::new((end - start + 1) as nat, |j: int| (start + j) as u32)
}

/// Number of `-` characters in `s`.
pub open spec fn dash_count(s: Seq<char>) -> int
    decreases s.len(),
{
    if s.len() == 0 {
        0
    } else {
        dash_count(s.drop_last()) + if s.last() == '-' {
            1int
        } else {
            0int
        }
    }
}

/// The message the standard library's integer parser would print for this
/// failure, as the range form reports parse failures verbatim.
pub open spec fn int_err_msg(e: NumError) -> Seq<char> {
    match e {
        NumError::Empty => "cannot parse integer from empty string"@,
        NumError::InvalidDigit => "invalid digit found in string"@,
        NumError::Overflow => "number too large to fit in target type"@,
    }
}

/// What reading a port range from `s` returns: the ports it stands for,
/// or the exact message the reading fails with.
///
/// Text with two or more `-` separators is malformed.  With one, both
/// sides must read as `u32`, the end must lie in the port space, and the
/// start must be strictly below the end.  Without one, the text must read
/// as a `u32` lying in the port space.
pub open spec fn spec_parse_port_range(s: Seq<char>) -> Result<Seq<u32>, Seq<char>> {
    if dash_count(s) == 0 {
        match spec_parse_u32(s) {
            Ok(p) => if p <= MAX_PORT {
                Ok(seq![p])
            } else {
                Err("Invalid port number: Port numbers should be in the range 0-65535"@)
            },
            Err(_) => Err("Invalid port number"@),
        }
    } else if dash_count(s) == 1 {
        let i = choose|i: int| 0 <= i < s.len() && s[i] == '-';
        let a = s.subrange(0, i);
        let b = s.subrange(i + 1, s.len() as int);
        match spec_parse_u32(a) {
            Err(e) => Err(int_err_msg(e)),
            Ok(start) => match spec_parse_u32(b) {
                Err(e) => Err(int_err_msg(e)),
                Ok(end) => if end > MAX_PORT {
                    Err(
                        "Invalid port range: start and end port numbers must be in the range 0-65535"@,
                    )
                } else if start >= end {
                    Err(
                        "Invalid port range: start port number must be less than the end port number"@,
                    )
                } else {
                    Ok(range_seq(start, end))
                },
            },
        }
    } else {
        Err("Invalid range format: Expected format: start-end"@)
    }
}

proof fn lemma_dash_count_nonneg(s: Seq<char>)
    ensures
        dash_count(s) >= 0,
    decreases s.len(),
{
    if s.len() > 0 {
        lemma_dash_count_nonneg(s.drop_last());
    }
}

proof fn lemma_dash_at_least_one(s: Seq<char>, i: int)
    requires
        0 <= i < s.len(),
        s[i] == '-',
    ensures
        dash_count(s) >= 1,
    decreases s.len(),
{
    lemma_dash_count_nonneg(s.drop_last());
    if i < s.len() - 1 {
        assert(s.drop_last()[i] == s[i]);
        lemma_dash_at_least_one(s.drop_last(), i);
    }
}

proof fn lemma_dash_two(s: Seq<char>, i: int, j: int)
    requires
        0 <= i < j < s.len(),
        s[i] == '-',
        s[j] == '-',
    ensures
        dash_count(s) >= 2,
    decreases s.len(),
{
    if j == s.len() - 1 {
        assert(s.drop_last()[i] == s[i]);
        lemma_dash_at_least_one(s.drop_last(), i);
    } else {
        assert(s.drop_last()[i] == s[i]);
        assert(s.drop_last()[j] == s[j]);
        lemma_dash_two(s.drop_last(), i, j);
        lemma_dash_count_nonneg(s);
    }
}

fn num_err_string(e: NumError) -> (r: String)
    ensures
        r@ == int_err_msg(e),
{
    match e {
        NumError::Empty => ("cannot parse integer from empty string").to_owned(),
        NumError::InvalidDigit => ("invalid digit found in string").to_owned(),
        NumError::Overflow => ("number too large to fit in target type").to_owned(),
    }
}

impl PortRange {
    /// Every held port lies in the port space.
    pub open spec fn wf(self) -> bool {
        forall|j: int| 0 <= j < self.0@.len() ==> #[trigger] self.0@[j] <= MAX_PORT
    }

    /// Reads a port range from its command-line notation.
    pub fn parse(s: &str) -> (r: Result<PortRange, String>)
        ensures
            (match r {
                Ok(pr) => spec_parse_port_range(s@) is Ok && pr.0@ == spec_parse_port_range(
                    s@,
                )->Ok_0,
                Err(m) => spec_parse_port_range(s@) is Err && m@ == spec_parse_port_range(
                    s@,
                )->Err_0,
            }),
            r is Ok ==> r->Ok_0.wf(),
    {
        let n = s.unicode_len();
        let mut i: usize = 0;
        let mut cnt: usize = 0;
        let mut first: usize = 0;
        while i < n
            invariant
                0 <= i <= n,
                n == s@.len(),
                cnt == dash_count(s@.take(i as int)),
                cnt <= i,
                cnt >= 1 ==> first < i && s@[first as int] == '-',
            decreases n - i,
        {
            let c = s.get_char(i);
            proof {
                assert(s@.take(i + 1).drop_last() =~= s@.take(i as int));
                assert(s@.take(i + 1).last() == s@[i as int]);
            }
            if c == '-' {
                if cnt == 0 {
                    first = i;
                }
                cnt = cnt + 1;
            }
            i = i + 1;
        }
        proof {
            assert(s@.take(n as int) =~= s@);
        }
        if cnt == 0 {
            match parse_u32(s) {
                Ok(p) => {
                    if p <= MAX_PORT {
                        let mut v: Vec<u32> = Vec::new();
                        v.push(p);
                        proof {
                            assert(v@ =~= seq![p]);
                        }
                        Ok(PortRange(v))
                    } else {
                        Err(
                            (
                            "Invalid port number: Port numbers should be in the range 0-65535"
                            ).to_owned(),
                        )
                    }
                },
                Err(_) => Err(("Invalid port number").to_owned()),
            }
        } else if cnt == 1 {
            proof {
                assert(exists|ci: int| 0 <= ci < s@.len() && s@[ci] == '-') by {
                    assert(s@[first as int] == '-');
                }
                let ci = choose|ci: int| 0 <= ci < s@.len() && s@[ci] == '-';
                if ci < first as int {
                    lemma_dash_two(s@, ci, first as int);
                }
                if ci > first as int {
                    lemma_dash_two(s@, first as int, ci);
                }
                assert(ci == first as int);
            }
            let a_str = s.substring_char(0, first);
            let b_str = s.substring_char(first + 1, n);
            match parse_u32(a_str) {
                Err(e) => Err(num_err_string(e)),
                Ok(start) => match parse_u32(b_str) {
                    Err(e) => Err(num_err_string(e)),
                    Ok(end) => {
                        if end > MAX_PORT {
                            Err(
                                (
                                "Invalid port range: start and end port numbers must be in the range 0-65535"
                                ).to_owned(),
                            )
                        } else if start >= end {
                            Err(
                                (
                                "Invalid port range: start port number must be less than the end port number"
                                ).to_owned(),
                            )
                        } else {
                            let mut v: Vec<u32> = Vec::new();
                            let mut p: u32 = start;
                            while p <= end
                                invariant
                                    start <= p <= end + 1,
                                    end <= MAX_PORT,
                                    v@.len() == p - start,
                                    forall|j: int|
                                        0 <= j < v@.len() ==> #[trigger] v@[j] == (start + j) as u32,
                                decreases end + 1 - p,
                            {
                                v.push(p);
                                p = p + 1;
                            }
                            proof {
                                assert(v@ =~= range_seq(start, end));
                            }
                            Ok(PortRange(v))
                        }
                    },
                },
            }
        } else {
            Err(("Invalid range format: Expected format: start-end").to_owned())
        }
    }
}

impl core::str::FromStr for PortRange {
    type Err = String;

    /// The command-line layer reads a port range through the standard
    /// parsing trait; the behaviour is `PortRange::parse`.
    fn from_str(s: &str) -> Result<PortRange, String> {
        PortRange::parse(s)
    }
}

} // verus!
