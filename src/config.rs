use vstd::prelude::*;

verus! {

/// The k-mer length used when none is given.
pub const DEFAULT_K: usize = 16;

/// `c` is an ASCII decimal digit.
pub open spec fn is_digit(c: char) -> bool {
    '0' <= c <= '9'
}

/// `s` is a non-empty run of decimal digits.
pub open spec fn is_decimal(s: Seq<char>) -> bool {
    s.len() > 0 && forall|i: int| 0 <= i < s.len() ==> is_digit(#[trigger] s[i])
}

/// The number that the decimal digits `s` write.
pub open spec fn decimal_value(s: Seq<char>) -> nat
    decreases s.len(),
{
    if s.len() == 0 {
        0
    } else {
        (10 * decimal_value(s.drop_last()) + (s.last() as int - '0' as int)) as nat
    }
}

/// Relies on `<usize as FromStr>::from_str`: it accepts decimal digits,
/// optionally after one `+`, whose value fits in a `usize`, and nothing else.
#[verifier::external_body]
fn parse_usize(s: &str) -> (r: Option<usize>)
    ensures
        is_decimal(s@) && decimal_value(s@) <= usize::MAX ==> r == Some(decimal_value(s@) as usize),
        r matches Some(v) ==> (is_decimal(s@) && v == decimal_value(s@)) || (s@.len() > 0 && s@[0]
            == '+' && is_decimal(s@.drop_first()) && v == decimal_value(s@.drop_first())),
{
    s.parse::<usize>().ok()
}

/// What one run compares: two sequence files, the k-mer length and the
/// prefix that k-mers must begin with.
pub struct Config {
    pub filename: String,
    pub filedb: String,
    pub k: usize,
    pub prefix: String,
}

impl Config {
    /// Reads the command line `args`, program name first: the two file
    /// names, then optionally `k` (16 where absent) and the prefix ("ATCG"
    /// where absent). Fails where a file name is missing, or where `k` is
    /// not a positive decimal number.
    pub fn new(args: Vec<String>) -> (r: Result<Config, &'static str>)
        ensures
            args@.len() < 3 ==> r == Err::<Config, &'static str>("Didn't get a filename!"),
            args@.len() >= 3 ==> match r {
                Ok(c) => {
                    &&& c.filename == args@[1]
                    &&& c.filedb == args@[2]
                    &&& c.k > 0
                    &&& args@.len() == 3 ==> c.k == DEFAULT_K
                    &&& args@.len() > 3 ==> {
                        ||| c.k == decimal_value(args@[3]@)
                        ||| (args@[3]@.len() > 0 && args@[3]@[0] == '+' && c.k == decimal_value(
                            args@[3]@.drop_first(),
                        ))
                    }
                    &&& args@.len() <= 4 ==> c.prefix@ == "ATCG"@
                    &&& args@.len() > 4 ==> c.prefix == args@[4]
                },
                Err(e) => e == "k must be a positive integer" && args@.len() > 3,
            },
            args@.len() > 3 && is_decimal(args@[3]@) && 0 < decimal_value(args@[3]@) <= usize::MAX
                ==> r is Ok,
    {
        if args.len() < 3 {
            return Err("Didn't get a filename!");
        }
        let filename = args[1].clone();
        let filedb = args[2].clone();
        let k = if args.len() > 3 {
            match parse_usize(args[3].as_str()) {
                Some(v) => {
                    if v == 0 {
                        return Err("k must be a positive integer");
                    }
                    v
                },
                None => {
                    return Err("k must be a positive integer");
                },
            }
        } else {
            DEFAULT_K
        };
        let prefix = if args.len() > 4 {
            args[4].clone()
        } else {
            "ATCG".to_owned()
        };
        Ok(Config { filename, filedb, k, prefix })
    }
}

} // verus!
